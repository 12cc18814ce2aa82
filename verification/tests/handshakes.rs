use liteway::cert;
use liteway::cert::{CaSigningKey, CaVerifyKey, Cert, NodeSigningSecretKey};
use liteway::clock::Timestamp;
use liteway::crypto::hybrid_kem::MLKEM_PK_LEN;
use liteway::crypto::hybrid_sig::{hybrid_sign, HybridSigningKey};
use liteway::crypto::K_HEADER_LEN;
use liteway::handshake::{
    create_handshake_1_with, handshake_cert_bytes, open_handshake, process_handshake_1_at,
    process_handshake_2_at, seal_handshake, seal_handshake_to_peer, seal_handshake_with,
    HandshakeDraws, HandshakeError, HandshakeInitiate, HandshakeResponse,
};
use liteway::hex_serde;
use liteway::packet::network_header;
use serde_json::Value;

fn text(value: &Value, key: &str) -> Option<String> {
    Some(value.get(key)?.as_str()?.to_string())
}

fn texts(value: &Value, key: &str) -> Option<Vec<String>> {
    let mut out = Vec::new();
    for item in value.get(key)?.as_array()? {
        out.push(item.as_str()?.to_string());
    }
    Some(out)
}

fn bytes<const N: usize>(value: &Value, key: &str) -> Option<[u8; N]> {
    hex_serde::deserialize::<N>(&text(value, key)?).ok()
}

fn time(value: &Value, key: &str) -> Option<Timestamp> {
    let t = chrono::DateTime::parse_from_rfc3339(&text(value, key)?).ok()?;
    Timestamp::new(t.timestamp(), t.timestamp_subsec_nanos())
}

fn body_of(value: &Value) -> Option<cert::CertBody> {
    let meta = value.get("meta")?;
    let keys = value.get("keys")?;
    let addresses = match value.get("addresses") {
        Some(a) => Some(cert::NodeAddresses {
            ip: text(a, "ip")?,
            subnets: texts(a, "subnets")?,
        }),
        None => None,
    };
    Some(cert::CertBody {
        meta: cert::CertMeta {
            name: text(meta, "name")?,
            is_ca: meta.get("is_ca")?.as_bool()?,
            not_before: time(meta, "not_before")?,
            not_after: time(meta, "not_after")?,
            groups: texts(meta, "groups")?,
        },
        keys: cert::KeyMaterial {
            ed25519_pk: bytes(keys, "ed25519_pk")?,
            ml_dsa_pk: bytes(keys, "ml_dsa_pk")?,
        },
        addresses,
    })
}

fn decode_cert(json: &[u8]) -> Option<Cert> {
    let value = serde_json::from_slice::<Value>(json).ok()?;
    let signature = value.get("signature")?;
    Some(Cert {
        body: body_of(value.get("body")?)?,
        signature: cert::CertSignature {
            ed25519: bytes(signature, "ed25519")?,
            ml_dsa: bytes(signature, "ml_dsa")?,
        },
    })
}

fn cert_in(data: &[u8], network_key: &[u8; K_HEADER_LEN]) -> Option<Cert> {
    decode_cert(&handshake_cert_bytes(data, network_key)?)
}

struct Node {
    cert: Cert,
    key: NodeSigningSecretKey,
}

const NETWORK_KEY: [u8; K_HEADER_LEN] = [0x42; K_HEADER_LEN];

fn authority() -> (CaSigningKey, CaVerifyKey) {
    let ca = cert::generate_ca("ca", 10, &[]).unwrap();
    (ca.signing_key, ca.cert.verify_key)
}

fn node(name: &str, ca: &CaSigningKey) -> Node {
    let (cert, key) = cert::generate_node(name, "10.0.0.1/24", &[], &[], ca, 30).unwrap();
    Node { cert, key: key.signing_secret_key }
}

fn now_of(node: &Node) -> u64 {
    node.cert.body.meta.not_before.timestamp() as u64
}

fn start(node: &Node, now: u64, session: u32) -> HandshakeInitiate {
    let draws = HandshakeDraws {
        rx_session_id: session,
        random: [1; 16],
        padding: vec![2; 5],
        mask_nonce: [3; 8],
        nonce: [4; 12],
    };
    create_handshake_1_with(&node.cert, &node.key, &NETWORK_KEY, true, [5; 32], [6; 64], draws, now)
        .expect("the message is made")
}

fn answer(data: &[u8], node: &Node, ca: &CaVerifyKey, now: u64) -> Result<HandshakeResponse, HandshakeError> {
    let peer_cert = cert_in(data, &NETWORK_KEY);
    process_handshake_1_at(data, peer_cert, &node.cert, &node.key, &NETWORK_KEY, ca, false, now)
}

fn error_of(data: &[u8], node: &Node, ca: &CaVerifyKey, now: u64) -> HandshakeError {
    match answer(data, node, ca, now) {
        Ok(_) => panic!("the message must be refused"),
        Err(e) => e,
    }
}

fn reseal(data: &[u8], change: impl Fn(&mut Vec<u8>)) -> Vec<u8> {
    let mut plain = open_handshake(&NETWORK_KEY, data).unwrap();
    change(&mut plain);
    seal_handshake(&NETWORK_KEY, &plain)
}

#[test]
fn sealed_handshake_opens_again() {
    for plain in [
        vec![0x11u8],
        vec![0x12, 1, 2, 3],
        vec![0x13, 1, 2, 3, 4, 0, 1],
        vec![0x13, 1, 2, 3, 4, 8, 9, 10, 11],
    ] {
        let msg = seal_handshake_to_peer(&NETWORK_KEY, &plain, 77);
        assert_eq!(open_handshake(&NETWORK_KEY, &msg), Some(plain.clone()));
        let header = network_header(&msg, &NETWORK_KEY).unwrap();
        assert_eq!(header.kind, plain[0]);
        assert_eq!(header.dst_peer_id, 77);
        assert_eq!(open_handshake(&[1; 32], &msg), None);
    }
}

#[test]
fn fragment_prefix_travels_in_the_header() {
    let msg = seal_handshake_with(&NETWORK_KEY, &[0x13, 1, 2, 3, 4, 8, 9, 10], 0, 5, [7; 8], [8; 12]);
    let header = network_header(&msg, &NETWORK_KEY).unwrap();
    assert_eq!(header.session_id, 0x01020304);
    assert_eq!(header.frag_index, 8);
    assert_eq!(header.frag_total, 9);
    assert_eq!(&msg[..8], &[7; 8]);
    assert_eq!(&msg[24..36], &[8; 12]);
    assert_eq!(msg.len(), 52 + 1);
}

#[test]
fn other_messages_name_the_session_of_their_receiver() {
    let msg = seal_handshake_with(&NETWORK_KEY, &[0x12, 1, 2], 77, 0x01020304, [7; 8], [8; 12]);
    let header = network_header(&msg, &NETWORK_KEY).unwrap();
    assert_eq!(header.kind, 0x12);
    assert_eq!(header.dst_peer_id, 77);
    assert_eq!(header.session_id, 0x01020304);
    assert_eq!(open_handshake(&NETWORK_KEY, &msg), Some(vec![0x12, 1, 2]));
    let open = network_header(&seal_handshake(&NETWORK_KEY, &[0x11]), &NETWORK_KEY).unwrap();
    assert_eq!(open.session_id, 0);
}

#[test]
fn badly_framed_handshakes_do_not_open() {
    let total_zero = seal_handshake(&NETWORK_KEY, &[0x13, 1, 2, 3, 4, 0, 0]);
    assert_eq!(open_handshake(&NETWORK_KEY, &total_zero), None);
    let index_too_high = seal_handshake(&NETWORK_KEY, &[0x13, 1, 2, 3, 4, 2, 2, 1]);
    assert_eq!(open_handshake(&NETWORK_KEY, &index_too_high), None);
    let unknown_kind = seal_handshake(&NETWORK_KEY, &[0x99, 1]);
    assert_eq!(open_handshake(&NETWORK_KEY, &unknown_kind), None);
    let empty = seal_handshake(&NETWORK_KEY, &[]);
    assert_eq!(open_handshake(&NETWORK_KEY, &empty), None);
    assert_eq!(open_handshake(&NETWORK_KEY, &[0; 51]), None);
}

#[test]
fn both_sides_agree_and_know_each_other() {
    let (ca, vk) = authority();
    let alice = node("alice", &ca);
    let bob = node("bob", &ca);
    let now = now_of(&bob);
    let init = start(&alice, now, 0xaabbccdd);
    let resp = answer(&init.msg, &bob, &vk, now).ok().expect("the first message is accepted");
    assert_eq!(resp.peer_cert, alice.cert);
    assert!(resp.peer_is_relay);
    assert_eq!(resp.peer_rx_session_id, 0xaabbccdd);
    assert_ne!(resp.my_rx_session_id, 0);
    let (msg, id) = (init.msg.clone(), init.my_rx_session_id);
    let peer_cert = cert_in(&resp.msg, &NETWORK_KEY);
    let result = process_handshake_2_at(&resp.msg, peer_cert, init, &NETWORK_KEY, &vk, now)
        .ok()
        .expect("the answer is accepted");
    assert_eq!(result.peer_cert, bob.cert);
    assert!(!result.peer_is_relay);
    assert_eq!(result.my_rx_session_id, id);
    assert_eq!(result.peer_rx_session_id, resp.my_rx_session_id);
    assert_eq!(result.session_key, resp.session_key);
    let plain = open_handshake(&NETWORK_KEY, &resp.msg).unwrap();
    assert_eq!(&plain[64 + 1088..64 + 1088 + 32], blake3::hash(&msg).as_bytes());
    assert_eq!(&plain[32..64], &result.peer_eph_x25519);
    assert_eq!(plain[0], 0x12);
}

#[test]
fn layout_of_a_first_message() {
    let (ca, _) = authority();
    let alice = node("alice", &ca);
    let init = start(&alice, 0x0102030405060708, 0x11121314);
    let plain = open_handshake(&NETWORK_KEY, &init.msg).unwrap();
    let cert = alice.cert.to_bytes();
    assert_eq!(&plain[..4], &[0x11, 2, 0, 1]);
    assert_eq!(&plain[4..12], &[1, 2, 3, 4, 5, 6, 7, 8]);
    assert_eq!(&plain[12..28], &[1; 16]);
    assert_eq!(&plain[28..32], &[0x11, 0x12, 0x13, 0x14]);
    let at = 64 + MLKEM_PK_LEN;
    assert_eq!(&plain[at..at + 4], &(cert.len() as u32).to_be_bytes());
    assert_eq!(&plain[at + 4..at + 4 + cert.len()], &cert[..]);
    assert_eq!(plain.len(), at + 4 + cert.len() + 64 + 3309 + 5);
    assert_eq!(handshake_cert_bytes(&init.msg, &NETWORK_KEY), Some(cert));
}

#[test]
fn refusals_of_a_first_message() {
    let (ca, vk) = authority();
    let (_, other_vk) = authority();
    let alice = node("alice", &ca);
    let bob = node("bob", &ca);
    let now = now_of(&bob);
    let msg = start(&alice, now, 1).msg;
    assert!(answer(&msg, &bob, &vk, now).is_ok());

    assert_eq!(error_of(&msg[..60], &bob, &vk, now), HandshakeError::DecryptFailed);
    let short = seal_handshake(&NETWORK_KEY, &[0x11; 100]);
    assert_eq!(error_of(&short, &bob, &vk, now), HandshakeError::TooShort);
    let kind = reseal(&msg, |p| p[0] = 0x12);
    assert_eq!(error_of(&kind, &bob, &vk, now), HandshakeError::WrongKind);
    let version = reseal(&msg, |p| p[1] = 3);
    assert_eq!(error_of(&version, &bob, &vk, now), HandshakeError::UnsupportedVersion);
    assert_eq!(error_of(&msg, &bob, &vk, now + 301), HandshakeError::ClockSkew);
    assert_eq!(error_of(&msg, &bob, &vk, now - 301), HandshakeError::ClockSkew);
    assert!(answer(&msg, &bob, &vk, now + 300).is_ok());
    let length = reseal(&msg, |p| p[64 + MLKEM_PK_LEN] = 0xff);
    assert_eq!(error_of(&length, &bob, &vk, now), HandshakeError::FieldOutOfBounds);
    let unreadable = reseal(&msg, |p| p[64 + MLKEM_PK_LEN + 4] = b'!');
    assert_eq!(error_of(&unreadable, &bob, &vk, now), HandshakeError::CertDecode);
    let cut = reseal(&msg, |p| {
        let len = p.len();
        p.truncate(len - 6);
    });
    assert_eq!(error_of(&cut, &bob, &vk, now), HandshakeError::FieldOutOfBounds);
    assert_eq!(error_of(&msg, &bob, &other_vk, now), HandshakeError::CertInvalid);
    let unsigned = reseal(&msg, |p| p[20] ^= 1);
    assert_eq!(error_of(&unsigned, &bob, &vk, now), HandshakeError::SignatureInvalid);
}

#[test]
fn an_invalid_peer_key_is_refused() {
    let (ca, vk) = authority();
    let alice = node("alice", &ca);
    let bob = node("bob", &ca);
    let now = now_of(&bob);
    let msg = start(&alice, now, 1).msg;
    let sk = HybridSigningKey { ed25519: alice.key.ed25519, ml_dsa_seed: alice.key.ml_dsa_seed };
    let forged = reseal(&msg, |p| {
        for b in &mut p[64..64 + MLKEM_PK_LEN] {
            *b = 0xff;
        }
        let signed = 64 + MLKEM_PK_LEN + 4 + alice.cert.to_bytes().len();
        let sig = hybrid_sign(&sk, &p[..signed]);
        p[signed..signed + 64].copy_from_slice(&sig.ed25519);
        p[signed + 64..signed + 64 + 3309].copy_from_slice(&sig.ml_dsa);
    });
    assert_eq!(error_of(&forged, &bob, &vk, now), HandshakeError::InvalidPeerKey);
}

#[test]
fn an_answer_to_another_message_is_refused() {
    let (ca, vk) = authority();
    let alice = node("alice", &ca);
    let bob = node("bob", &ca);
    let now = now_of(&bob);
    let init = start(&alice, now, 1);
    let resp = answer(&start(&alice, now, 2).msg, &bob, &vk, now).ok().unwrap();
    let peer_cert = cert_in(&resp.msg, &NETWORK_KEY);
    match process_handshake_2_at(&resp.msg, peer_cert, init, &NETWORK_KEY, &vk, now) {
        Ok(_) => panic!("the answer must be refused"),
        Err(e) => assert_eq!(e, HandshakeError::TranscriptMismatch),
    }
}

#[test]
fn session_keys_are_overwritten() {
    let (ca, vk) = authority();
    let alice = node("alice", &ca);
    let now = now_of(&alice);
    let mut init = start(&alice, now, 1);
    let mut resp = answer(&init.msg, &alice, &vk, now).ok().unwrap();
    resp.zeroize();
    assert_eq!(resp.session_key, [0; 32]);
    init.zeroize();
    assert_eq!(init.eph_x25519_sk, [0; 32]);
    assert_eq!(init.eph_mlkem_sk.seed, [0; 64]);
    let mut key = alice.key.clone();
    key.zeroize();
    assert_eq!(key.ed25519, [0; 32]);
    assert_eq!(key.ml_dsa_seed, [0; 32]);
}
