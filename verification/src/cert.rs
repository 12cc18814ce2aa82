//! Certificates: what they hold, how they are written, signed, verified and issued.
pub mod binding;

use crate::bytes::{from_be32, put_slice};
use crate::clock::{rfc3339, unix_time_secs, Timestamp, MAX_SECS, MIN_SECS};
use crate::crypto::hybrid_sig::{
    accepts, generate_hybrid_keypair, hybrid_sign, hybrid_verify, is_degenerate, is_keypair, is_signature,
    mldsa65_signature, try_hybrid_sign, HybridSignature, HybridSigningKey, HybridVerifyKey, ED25519_PK_LEN,
    ED25519_SIG_LEN, ED25519_SK_LEN, MLDSA_PK_LEN, MLDSA_SIG_LEN, MLDSA_SK_LEN,
};
use crate::crypto::kdf::{blake3_hash, blake3_hashed};
use crate::crypto::{wipe, zeros};
use crate::text::{copy_strings, hex_encode, hex_text, json_list, json_string, put_json_list, put_json_string, put_text, texts, utf8};
use vstd::prelude::*;

verus! {

/// Who a certificate is for, and when it holds.
#[derive(Debug, Clone, PartialEq, Eq)]
pub struct CertMeta {
    pub name: String,
    pub is_ca: bool,
    pub not_before: Timestamp,
    pub not_after: Timestamp,
    pub groups: Vec<String>,
}

/// The public keys of a node.
#[derive(Debug, Clone, PartialEq, Eq)]
pub struct KeyMaterial {
    pub ed25519_pk: [u8; ED25519_PK_LEN],
    pub ml_dsa_pk: [u8; MLDSA_PK_LEN],
}

/// The address of a node in the mesh, with its prefix, and the subnets behind it.
#[derive(Debug, Clone, PartialEq, Eq)]
pub struct NodeAddresses {
    pub ip: String,
    pub subnets: Vec<String>,
}

/// The signed part of a certificate.
#[derive(Debug, Clone, PartialEq, Eq)]
pub struct CertBody {
    pub meta: CertMeta,
    pub keys: KeyMaterial,
    pub addresses: Option<NodeAddresses>,
}

/// A node's certificate.
#[derive(Debug, Clone, PartialEq, Eq)]
pub struct Cert {
    pub body: CertBody,
    pub signature: CertSignature,
}

/// The authority's signature on a certificate.
#[derive(Debug, Clone, PartialEq, Eq)]
pub struct CertSignature {
    pub ed25519: [u8; ED25519_SIG_LEN],
    pub ml_dsa: [u8; MLDSA_SIG_LEN],
}

/// The public part of a certificate authority.
#[derive(Debug, Clone)]
pub struct CaCert {
    pub meta: CertMeta,
    pub verify_key: CaVerifyKey,
}

/// The keys that an authority's signatures are verified with.
#[derive(Debug, Clone)]
pub struct CaVerifyKey {
    pub ed25519: [u8; ED25519_PK_LEN],
    pub ml_dsa: [u8; MLDSA_PK_LEN],
}

/// A certificate authority with its signing key.
#[derive(Debug, Clone)]
pub struct FullCaCert {
    pub cert: CaCert,
    pub signing_key: CaSigningKey,
}

/// The keys that an authority signs with.
#[derive(Debug, Clone)]
pub struct CaSigningKey {
    pub ed25519: [u8; ED25519_SK_LEN],
    pub ml_dsa_seed: [u8; MLDSA_SK_LEN],
}

/// A node's secret keys, as kept beside its certificate.
#[derive(Debug, Clone)]
pub struct NodeKeyFile {
    pub signing_secret_key: NodeSigningSecretKey,
}

/// The keys that a node signs with.
#[derive(Debug, Clone)]
pub struct NodeSigningSecretKey {
    pub ed25519: [u8; ED25519_SK_LEN],
    pub ml_dsa_seed: [u8; MLDSA_SK_LEN],
}

impl CaSigningKey {
    /// Overwrites the secret keys.
    pub fn zeroize(&mut self)
        ensures
            final(self).ed25519@ == zeros(ED25519_SK_LEN as nat),
            final(self).ml_dsa_seed@ == zeros(MLDSA_SK_LEN as nat),
    {
        wipe(&mut self.ed25519);
        wipe(&mut self.ml_dsa_seed);
    }
}

impl NodeSigningSecretKey {
    /// Overwrites the secret keys.
    pub fn zeroize(&mut self)
        ensures
            final(self).ed25519@ == zeros(ED25519_SK_LEN as nat),
            final(self).ml_dsa_seed@ == zeros(MLDSA_SK_LEN as nat),
    {
        wipe(&mut self.ed25519);
        wipe(&mut self.ml_dsa_seed);
    }
}

impl CaSigningKey {
    pub open spec fn hybrid(self) -> HybridSigningKey {
        HybridSigningKey { ed25519: self.ed25519, ml_dsa_seed: self.ml_dsa_seed }
    }
}

impl NodeSigningSecretKey {
    pub open spec fn hybrid(self) -> HybridSigningKey {
        HybridSigningKey { ed25519: self.ed25519, ml_dsa_seed: self.ml_dsa_seed }
    }
}

impl CaVerifyKey {
    pub open spec fn hybrid(self) -> HybridVerifyKey {
        HybridVerifyKey { ed25519: self.ed25519, ml_dsa: self.ml_dsa }
    }
}

impl KeyMaterial {
    pub open spec fn hybrid(self) -> HybridVerifyKey {
        HybridVerifyKey { ed25519: self.ed25519_pk, ml_dsa: self.ml_dsa_pk }
    }
}

impl CertSignature {
    pub open spec fn hybrid(self) -> HybridSignature {
        HybridSignature { ed25519: self.ed25519, ml_dsa: self.ml_dsa }
    }
}

/// The JSON object that metadata of the given contents is written as.
pub open spec fn meta_json(
    name: Seq<char>,
    is_ca: bool,
    not_before: Seq<char>,
    not_after: Seq<char>,
    groups: Seq<Seq<char>>,
) -> Seq<u8> {
    utf8("{\"name\":") + json_string(name) + utf8(",\"is_ca\":") + (if is_ca {
        utf8("true")
    } else {
        utf8("false")
    }) + utf8(",\"not_before\":") + json_string(not_before) + utf8(",\"not_after\":") + json_string(not_after) + utf8(
        ",\"groups\":",
    ) + json_list(groups) + utf8("}")
}

/// The JSON object that a node's addresses are written as.
pub open spec fn addresses_json(ip: Seq<char>, subnets: Seq<Seq<char>>) -> Seq<u8> {
    utf8("{\"ip\":") + json_string(ip) + utf8(",\"subnets\":") + json_list(subnets) + utf8("}")
}

/// The JSON object that keys are written as.
pub open spec fn keys_json(vk: HybridVerifyKey) -> Seq<u8> {
    utf8("{\"ed25519_pk\":") + json_string(hex_text(vk.ed25519@)) + utf8(",\"ml_dsa_pk\":") + json_string(
        hex_text(vk.ml_dsa@),
    ) + utf8("}")
}

impl CertMeta {
    /// The JSON object that the metadata is written as.
    pub open spec fn json(self) -> Seq<u8> {
        meta_json(self.name@, self.is_ca, self.not_before.text(), self.not_after.text(), texts(self.groups@))
    }

    /// Appends the metadata in JSON.
    fn put_json(&self, out: &mut Vec<u8>)
        ensures
            final(out)@ == old(out)@ + self.json(),
    {
        put_text(out, "{\"name\":");
        put_json_string(out, self.name.as_str());
        put_text(out, ",\"is_ca\":");
        if self.is_ca {
            put_text(out, "true");
        } else {
            put_text(out, "false");
        }
        put_text(out, ",\"not_before\":");
        let not_before = self.not_before.to_rfc3339();
        put_json_string(out, not_before.as_str());
        put_text(out, ",\"not_after\":");
        let not_after = self.not_after.to_rfc3339();
        put_json_string(out, not_after.as_str());
        put_text(out, ",\"groups\":");
        put_json_list(out, self.groups.as_slice());
        put_text(out, "}");
        assert(out@ =~= old(out)@ + self.json());
    }
}

/// Appends bytes as a JSON string of hexadecimal digits.
fn put_json_hex(out: &mut Vec<u8>, bytes: &[u8])
    ensures
        final(out)@ == old(out)@ + json_string(hex_text(bytes@)),
{
    let digits = hex_encode(bytes);
    put_json_string(out, digits.as_str());
}

impl KeyMaterial {
    /// The JSON object that the keys are written as.
    pub open spec fn json(self) -> Seq<u8> {
        keys_json(self.hybrid())
    }

    /// Appends the keys in JSON.
    fn put_json(&self, out: &mut Vec<u8>)
        ensures
            final(out)@ == old(out)@ + self.json(),
    {
        put_text(out, "{\"ed25519_pk\":");
        put_json_hex(out, &self.ed25519_pk);
        put_text(out, ",\"ml_dsa_pk\":");
        put_json_hex(out, &self.ml_dsa_pk);
        put_text(out, "}");
        assert(out@ =~= old(out)@ + self.json());
    }
}

impl NodeAddresses {
    /// The JSON object that the addresses are written as.
    pub open spec fn json(self) -> Seq<u8> {
        addresses_json(self.ip@, texts(self.subnets@))
    }

    /// Appends the addresses in JSON.
    fn put_json(&self, out: &mut Vec<u8>)
        ensures
            final(out)@ == old(out)@ + self.json(),
    {
        put_text(out, "{\"ip\":");
        put_json_string(out, self.ip.as_str());
        put_text(out, ",\"subnets\":");
        put_json_list(out, self.subnets.as_slice());
        put_text(out, "}");
        assert(out@ =~= old(out)@ + self.json());
    }
}

impl CertBody {
    /// The JSON object that the body is written as; it is what the authority signs.
    pub open spec fn json(self) -> Seq<u8> {
        utf8("{\"meta\":") + self.meta.json() + utf8(",\"keys\":") + self.keys.json() + (match self.addresses {
            Some(addresses) => utf8(",\"addresses\":") + addresses.json(),
            None => Seq::empty(),
        }) + utf8("}")
    }

    /// The body in JSON.
    pub fn to_bytes(&self) -> (r: Vec<u8>)
        ensures
            r@ == self.json(),
    {
        let mut out: Vec<u8> = Vec::new();
        put_text(&mut out, "{\"meta\":");
        self.meta.put_json(&mut out);
        put_text(&mut out, ",\"keys\":");
        self.keys.put_json(&mut out);
        match &self.addresses {
            Some(addresses) => {
                put_text(&mut out, ",\"addresses\":");
                addresses.put_json(&mut out);
            },
            None => {},
        }
        put_text(&mut out, "}");
        assert(out@ =~= self.json());
        out
    }
}

impl CertSignature {
    /// The JSON object that the signature is written as.
    pub open spec fn json(self) -> Seq<u8> {
        utf8("{\"ed25519\":") + json_string(hex_text(self.ed25519@)) + utf8(",\"ml_dsa\":") + json_string(
            hex_text(self.ml_dsa@),
        ) + utf8("}")
    }
}

impl Cert {
    /// The JSON object that the certificate is written as.
    #[verifier::opaque]
    pub open spec fn json(self) -> Seq<u8> {
        utf8("{\"body\":") + self.body.json() + utf8(",\"signature\":") + self.signature.json() + utf8("}")
    }

    /// The certificate in JSON.
    pub fn to_bytes(&self) -> (r: Vec<u8>)
        ensures
            r@ == self.json(),
    {
        reveal(Cert::json);
        let mut out: Vec<u8> = Vec::new();
        put_text(&mut out, "{\"body\":");
        let body = self.body.to_bytes();
        put_slice(&mut out, body.as_slice());
        put_text(&mut out, ",\"signature\":");
        put_text(&mut out, "{\"ed25519\":");
        put_json_hex(&mut out, &self.signature.ed25519);
        put_text(&mut out, ",\"ml_dsa\":");
        put_json_hex(&mut out, &self.signature.ml_dsa);
        put_text(&mut out, "}");
        put_text(&mut out, "}");
        assert(out@ =~= self.json());
        out
    }

    /// The body with the authority's signature on it.
    pub fn sign(body: CertBody, ca_signing_key: &CaSigningKey) -> (r: Cert)
        requires
            mldsa65_signature(ca_signing_key.ml_dsa_seed@, body.json()) is Some,
        ensures
            r.body == body,
            is_signature(ca_signing_key.hybrid(), body.json(), r.signature.hybrid()),
    {
        let bytes = body.to_bytes();
        let ca_sk = HybridSigningKey { ed25519: ca_signing_key.ed25519, ml_dsa_seed: ca_signing_key.ml_dsa_seed };
        let sig = hybrid_sign(&ca_sk, bytes.as_slice());
        Cert { body, signature: CertSignature { ed25519: sig.ed25519, ml_dsa: sig.ml_dsa } }
    }

    /// The body with the authority's signature on it, or `None` where ML-DSA finds no
    /// signature.
    pub fn try_sign(body: CertBody, ca_signing_key: &CaSigningKey) -> (r: Option<Cert>)
        ensures
            r is Some == mldsa65_signature(ca_signing_key.ml_dsa_seed@, body.json()) is Some,
            r matches Some(cert) ==> {
                &&& cert.body == body
                &&& is_signature(ca_signing_key.hybrid(), body.json(), cert.signature.hybrid())
            },
    {
        let bytes = body.to_bytes();
        let ca_sk = HybridSigningKey { ed25519: ca_signing_key.ed25519, ml_dsa_seed: ca_signing_key.ml_dsa_seed };
        match try_hybrid_sign(&ca_sk, bytes.as_slice()) {
            Some(_) => Some(Cert::sign(body, ca_signing_key)),
            None => None,
        }
    }

    /// Whether the certificate is a node's, holds at `now` and carries the authority's
    /// signature.
    pub open spec fn valid_at(self, ca_vk: CaVerifyKey, now: int) -> bool {
        &&& !self.body.meta.is_ca
        &&& self.body.meta.not_before.spec_secs() <= now <= self.body.meta.not_after.spec_secs()
        &&& accepts(ca_vk.hybrid(), self.body.json(), self.signature.hybrid())
    }

    /// Whether the certificate is good now.
    pub fn verify(&self, ca_vk: &CaVerifyKey) -> (r: bool)
        ensures
            exists|now: u64| r == #[trigger] self.valid_at(*ca_vk, now as int),
    {
        let now: u64 = unix_time_secs();
        self.verify_at(ca_vk, now)
    }

    /// Whether the certificate is good at `now`, in seconds since the start of 1970.
    pub fn verify_at(&self, ca_vk: &CaVerifyKey, now: u64) -> (r: bool)
        ensures
            r == self.valid_at(*ca_vk, now as int),
    {
        if self.body.meta.is_ca {
            return false;
        }
        let nb: i64 = self.body.meta.not_before.timestamp();
        let na: i64 = self.body.meta.not_after.timestamp();
        if na < 0 || now > na as u64 || nb > 0 && now < nb as u64 {
            return false;
        }
        let bytes = self.body.to_bytes();
        let vk = HybridVerifyKey { ed25519: ca_vk.ed25519, ml_dsa: ca_vk.ml_dsa };
        let sig = HybridSignature { ed25519: self.signature.ed25519, ml_dsa: self.signature.ml_dsa };
        hybrid_verify(&vk, bytes.as_slice(), &sig)
    }
}

/// Whether `ca` is an authority of the given name and groups, with a key pair, that holds
/// from `now` for `years` years of 365 days.
pub open spec fn is_new_ca(ca: FullCaCert, name: Seq<char>, years: int, groups: Seq<Seq<char>>, now: Timestamp) -> bool {
    &&& ca.cert.meta.name@ == name
    &&& ca.cert.meta.is_ca
    &&& ca.cert.meta.not_before == now
    &&& ca.cert.meta.not_after.spec_secs() == now.spec_secs() + years * 365 * 86_400
    &&& ca.cert.meta.not_after.spec_nanos() == now.spec_nanos()
    &&& texts(ca.cert.meta.groups@) == groups
    &&& is_keypair(ca.signing_key.hybrid(), ca.cert.verify_key.hybrid())
}

/// Makes a certificate authority that holds from now for a number of years of 365 days;
/// `None` where the end is out of range.
pub fn generate_ca(name: &str, years: i64, groups: &[String]) -> (r: Option<FullCaCert>)
    ensures
        exists|now: Timestamp|
            {
                &&& #[trigger] now.is_reading()
                &&& r is Some == (MIN_SECS <= now.spec_secs() + years * 365 * 86_400 <= MAX_SECS)
                &&& r matches Some(ca) ==> is_new_ca(ca, name@, years as int, texts(groups@), now)
            },
{
    let (sk, vk) = generate_hybrid_keypair();
    generate_ca_at(name, years, groups, sk, vk, Timestamp::now())
}

/// `generate_ca` with a given key pair at a given time.
pub fn generate_ca_at(
    name: &str,
    years: i64,
    groups: &[String],
    sk: HybridSigningKey,
    vk: HybridVerifyKey,
    now: Timestamp,
) -> (r: Option<FullCaCert>)
    requires
        is_keypair(sk, vk),
        now.spec_nanos() < 1_000_000_000,
    ensures
        r is Some == (MIN_SECS <= now.spec_secs() + years * 365 * 86_400 <= MAX_SECS),
        r matches Some(ca) ==> {
            &&& is_new_ca(ca, name@, years as int, texts(groups@), now)
            &&& ca.signing_key.hybrid() == sk
            &&& ca.cert.verify_key.hybrid() == vk
        },
{
    let days: i64 = years.checked_mul(365)?;
    let not_after = now.plus_days(days)?;
    let meta = CertMeta { name: name.to_owned(), is_ca: true, not_before: now, not_after, groups: copy_strings(groups) };
    let cert = CaCert { meta, verify_key: CaVerifyKey { ed25519: vk.ed25519, ml_dsa: vk.ml_dsa } };
    Some(FullCaCert { cert, signing_key: CaSigningKey { ed25519: sk.ed25519, ml_dsa_seed: sk.ml_dsa_seed } })
}

/// Whether `body` is that of a node with the given name, addresses, groups and keys that
/// holds from `now` for `days` days.
pub open spec fn is_new_body(
    body: CertBody,
    name: Seq<char>,
    ip: Seq<char>,
    subnets: Seq<Seq<char>>,
    groups: Seq<Seq<char>>,
    vk: HybridVerifyKey,
    days: int,
    now: Timestamp,
) -> bool {
    &&& body.meta.name@ == name
    &&& !body.meta.is_ca
    &&& body.meta.not_before == now
    &&& body.meta.not_after.spec_secs() == now.spec_secs() + days * 86_400
    &&& body.meta.not_after.spec_nanos() == now.spec_nanos()
    &&& texts(body.meta.groups@) == groups
    &&& body.keys.hybrid() == vk
    &&& body.addresses is Some
    &&& body.addresses->0.ip@ == ip
    &&& texts(body.addresses->0.subnets@) == subnets
}

/// What the authority signs of a node with the given name, addresses, groups and keys that
/// holds from `now` for `days` days.
pub open spec fn new_body_json(
    name: Seq<char>,
    ip: Seq<char>,
    subnets: Seq<Seq<char>>,
    groups: Seq<Seq<char>>,
    vk: HybridVerifyKey,
    days: int,
    now: Timestamp,
) -> Seq<u8> {
    let not_after = rfc3339((now.spec_secs() + days * 86_400) as i64, now.spec_nanos());
    utf8("{\"meta\":") + meta_json(name, false, now.text(), not_after, groups) + utf8(",\"keys\":") + keys_json(vk) + (
    utf8(",\"addresses\":") + addresses_json(ip, subnets)) + utf8("}")
}

/// Whether `r` is the certificate of a new node, signed by the authority, and the node's
/// keys; `None` where the end of its validity is out of range or ML-DSA finds no signature.
pub open spec fn is_new_node(
    r: Option<(Cert, NodeKeyFile)>,
    name: Seq<char>,
    ip: Seq<char>,
    subnets: Seq<Seq<char>>,
    groups: Seq<Seq<char>>,
    ca_signing_key: CaSigningKey,
    days: int,
    sk: HybridSigningKey,
    vk: HybridVerifyKey,
    now: Timestamp,
) -> bool {
    let json = new_body_json(name, ip, subnets, groups, vk, days, now);
    &&& r is Some == (MIN_SECS <= now.spec_secs() + days * 86_400 <= MAX_SECS && mldsa65_signature(
        ca_signing_key.ml_dsa_seed@,
        json,
    ) is Some)
    &&& r matches Some((cert, key)) ==> {
        &&& is_new_body(cert.body, name, ip, subnets, groups, vk, days, now)
        &&& cert.body.json() == json
        &&& is_signature(ca_signing_key.hybrid(), json, cert.signature.hybrid())
        &&& key.signing_secret_key.hybrid() == sk
    }
}

/// Issues a node's certificate that holds from now for a number of days, and makes the
/// node's keys.
pub fn generate_node(
    name: &str,
    ip: &str,
    subnets: &[String],
    groups: &[String],
    ca_signing_key: &CaSigningKey,
    days: i64,
) -> (r: Option<(Cert, NodeKeyFile)>)
    ensures
        exists|sk: HybridSigningKey, vk: HybridVerifyKey, now: Timestamp|
            {
                &&& now.is_reading()
                &&& is_keypair(sk, vk)
                &&& #[trigger] is_new_node(
                    r,
                    name@,
                    ip@,
                    texts(subnets@),
                    texts(groups@),
                    *ca_signing_key,
                    days as int,
                    sk,
                    vk,
                    now,
                )
            },
{
    let (sk, vk) = generate_hybrid_keypair();
    generate_node_at(name, ip, subnets, groups, ca_signing_key, days, sk, vk, Timestamp::now())
}

/// `generate_node` with given keys at a given time.
pub fn generate_node_at(
    name: &str,
    ip: &str,
    subnets: &[String],
    groups: &[String],
    ca_signing_key: &CaSigningKey,
    days: i64,
    sk: HybridSigningKey,
    vk: HybridVerifyKey,
    now: Timestamp,
) -> (r: Option<(Cert, NodeKeyFile)>)
    requires
        now.spec_nanos() < 1_000_000_000,
    ensures
        is_new_node(
            r,
            name@,
            ip@,
            texts(subnets@),
            texts(groups@),
            *ca_signing_key,
            days as int,
            sk,
            vk,
            now,
        ),
{
    let body = node_body_at(name, ip, subnets, groups, &vk, days, now)?;
    proof {
        lemma_new_body_json(body, name@, ip@, texts(subnets@), texts(groups@), vk, days as int, now);
    }
    let cert = Cert::try_sign(body, ca_signing_key)?;
    let key = NodeKeyFile {
        signing_secret_key: NodeSigningSecretKey { ed25519: sk.ed25519, ml_dsa_seed: sk.ml_dsa_seed },
    };
    assert(key.signing_secret_key.hybrid() == sk);
    Some((cert, key))
}

/// Every body of a new node is written as the same JSON.
proof fn lemma_new_body_json(
    body: CertBody,
    name: Seq<char>,
    ip: Seq<char>,
    subnets: Seq<Seq<char>>,
    groups: Seq<Seq<char>>,
    vk: HybridVerifyKey,
    days: int,
    now: Timestamp,
)
    requires
        is_new_body(body, name, ip, subnets, groups, vk, days, now),
    ensures
        body.json() == new_body_json(name, ip, subnets, groups, vk, days, now),
{
}

/// The body of a certificate that `generate_node` issues for a given public key at a
/// given time.
pub fn node_body_at(
    name: &str,
    ip: &str,
    subnets: &[String],
    groups: &[String],
    vk: &HybridVerifyKey,
    days: i64,
    now: Timestamp,
) -> (r: Option<CertBody>)
    requires
        now.spec_nanos() < 1_000_000_000,
    ensures
        r is Some == (MIN_SECS <= now.spec_secs() + days * 86_400 <= MAX_SECS),
        r matches Some(body) ==> is_new_body(
            body,
            name@,
            ip@,
            texts(subnets@),
            texts(groups@),
            *vk,
            days as int,
            now,
        ),
{
    let not_after = now.plus_days(days)?;
    let body = CertBody {
        meta: CertMeta {
            name: name.to_owned(),
            is_ca: false,
            not_before: now,
            not_after,
            groups: copy_strings(groups),
        },
        keys: KeyMaterial { ed25519_pk: vk.ed25519, ml_dsa_pk: vk.ml_dsa },
        addresses: Some(NodeAddresses { ip: ip.to_owned(), subnets: copy_strings(subnets) }),
    };
    assert(body.keys.hybrid() == *vk);
    Some(body)
}

/// The number that a node goes by: the start of a hash of its public keys.
pub open spec fn node_id(keys: KeyMaterial) -> u32 {
    from_be32(blake3_hashed(utf8("liteway-node-id-v1") + keys.ed25519_pk@ + keys.ml_dsa_pk@))
}

/// The number that the owner of a certificate goes by.
pub fn node_id_from_cert(cert: &Cert) -> (r: u32)
    ensures
        r == node_id(cert.body.keys),
{
    let mut input: Vec<u8> = Vec::new();
    put_text(&mut input, "liteway-node-id-v1");
    put_slice(&mut input, &cert.body.keys.ed25519_pk);
    put_slice(&mut input, &cert.body.keys.ml_dsa_pk);
    assert(input@ =~= utf8("liteway-node-id-v1") + cert.body.keys.ed25519_pk@ + cert.body.keys.ml_dsa_pk@);
    let h = blake3_hash(input.as_slice());
    h[0] as u32 * 0x100_0000 + h[1] as u32 * 0x1_0000 + h[2] as u32 * 0x100 + h[3] as u32
}

/// A certificate that an authority signed verifies under the authority's public key at
/// every second of its validity, if it is not marked as an authority's own. The one
/// exception is a signature whose Ed25519 point is the neutral element.
pub proof fn law_signed_cert_is_valid(cert: Cert, ca: CaSigningKey, vk: CaVerifyKey, now: int)
    requires
        is_signature(ca.hybrid(), cert.body.json(), cert.signature.hybrid()),
        is_keypair(ca.hybrid(), vk.hybrid()),
        !cert.body.meta.is_ca,
        cert.body.meta.not_before.spec_secs() <= now <= cert.body.meta.not_after.spec_secs(),
        !is_degenerate(cert.signature.hybrid()),
    ensures
        cert.valid_at(vk, now),
{
    assert(accepts(vk.hybrid(), cert.body.json(), cert.signature.hybrid()));
}

/// A certificate marked as an authority's own never verifies, whoever signed it.
pub proof fn law_ca_cert_is_refused(cert: Cert, vk: CaVerifyKey, now: int)
    requires
        cert.body.meta.is_ca,
    ensures
        !cert.valid_at(vk, now),
{
}

/// Outside the seconds of its validity a certificate does not verify.
pub proof fn law_validity_is_enforced(cert: Cert, vk: CaVerifyKey, now: int)
    requires
        now < cert.body.meta.not_before.spec_secs() || cert.body.meta.not_after.spec_secs() < now,
    ensures
        !cert.valid_at(vk, now),
{
}

} // verus!
