use liteway::cert::{
    generate_ca, generate_ca_at, generate_node_at, node_body_at, node_id_from_cert, Cert, CertBody, CertMeta,
    CertSignature, KeyMaterial, NodeAddresses,
};
use liteway::clock::Timestamp;
use liteway::crypto::hybrid_sig::keypair_from_seeds;

fn time(secs: i64, nanos: u32) -> Timestamp {
    Timestamp::new(secs, nanos).unwrap()
}

fn body() -> CertBody {
    CertBody {
        meta: CertMeta {
            name: "a \"quoted\"\n name".to_string(),
            is_ca: false,
            not_before: time(1_700_000_000, 0),
            not_after: time(1_700_000_000, 120_000_000),
            groups: vec!["web".to_string(), "route:10.0.0.0/8".to_string()],
        },
        keys: KeyMaterial { ed25519_pk: [0xab; 32], ml_dsa_pk: [0x01; 1952] },
        addresses: Some(NodeAddresses {
            ip: "10.0.0.1/24".to_string(),
            subnets: vec!["192.168.0.0/16".to_string()],
        }),
    }
}

#[test]
fn certificate_is_written_as_json() {
    let expected = format!(
        "{{\"meta\":{{\"name\":\"a \\\"quoted\\\"\\n name\",\"is_ca\":false,\
         \"not_before\":\"2023-11-14T22:13:20Z\",\"not_after\":\"2023-11-14T22:13:20.120Z\",\
         \"groups\":[\"web\",\"route:10.0.0.0/8\"]}},\
         \"keys\":{{\"ed25519_pk\":\"{}\",\"ml_dsa_pk\":\"{}\"}},\
         \"addresses\":{{\"ip\":\"10.0.0.1/24\",\"subnets\":[\"192.168.0.0/16\"]}}}}",
        "ab".repeat(32),
        "01".repeat(1952)
    );
    assert_eq!(String::from_utf8(body().to_bytes()).unwrap(), expected);
    let cert = Cert {
        body: body(),
        signature: CertSignature { ed25519: [0xcd; 64], ml_dsa: [0x02; 3309] },
    };
    let whole = format!(
        "{{\"body\":{},\"signature\":{{\"ed25519\":\"{}\",\"ml_dsa\":\"{}\"}}}}",
        expected,
        "cd".repeat(64),
        "02".repeat(3309)
    );
    assert_eq!(String::from_utf8(cert.to_bytes()).unwrap(), whole);
}

#[test]
fn missing_addresses_are_left_out() {
    let mut b = body();
    b.addresses = None;
    b.meta.groups = vec![];
    b.meta.is_ca = true;
    let json = String::from_utf8(b.to_bytes()).unwrap();
    assert!(json.contains("\"is_ca\":true"));
    assert!(json.contains("\"groups\":[]}"));
    assert!(!json.contains("addresses"));
}

#[test]
fn certificate_holds_from_its_first_to_its_last_second() {
    let (sk, vk) = keypair_from_seeds([1; 32], [2; 32]);
    let ca = generate_ca_at("ca", 1, &[], sk, vk, time(0, 0)).unwrap();
    let mut b = body();
    b.meta.not_before = time(1_000, 0);
    b.meta.not_after = time(2_000, 999);
    let cert = Cert::try_sign(b, &ca.signing_key).unwrap();
    assert!(!cert.verify_at(&ca.cert.verify_key, 999));
    assert!(cert.verify_at(&ca.cert.verify_key, 1_000));
    assert!(cert.verify_at(&ca.cert.verify_key, 2_000));
    assert!(!cert.verify_at(&ca.cert.verify_key, 2_001));
    let mut early = body();
    early.meta.not_before = time(-5, 0);
    early.meta.not_after = time(-1, 0);
    let early = Cert::try_sign(early, &ca.signing_key).unwrap();
    assert!(!early.verify_at(&ca.cert.verify_key, 0));
}

#[test]
fn a_certificate_of_an_authority_is_refused() {
    let ca = generate_ca("ca", 1, &[]).unwrap();
    let mut b = body();
    b.meta.is_ca = true;
    let cert = Cert::sign(b, &ca.signing_key);
    assert!(!cert.verify_at(&ca.cert.verify_key, 1_700_000_000));
    let mut changed = Cert::sign(body(), &ca.signing_key);
    assert!(changed.verify_at(&ca.cert.verify_key, 1_700_000_000));
    changed.body.meta.name.push('x');
    assert!(!changed.verify_at(&ca.cert.verify_key, 1_700_000_000));
}

#[test]
fn validity_is_counted_in_days() {
    let (sk, vk) = keypair_from_seeds([1; 32], [2; 32]);
    let groups = vec!["ops".to_string()];
    let ca = generate_ca_at("root", 2, &groups, sk, vk, time(100, 7)).unwrap();
    assert!(ca.cert.meta.is_ca);
    assert_eq!(ca.cert.meta.name, "root");
    assert_eq!(ca.cert.meta.groups, groups);
    assert_eq!(ca.cert.meta.not_before, time(100, 7));
    assert_eq!(ca.cert.meta.not_after, time(100 + 2 * 365 * 86_400, 7));
    let (_, vk) = keypair_from_seeds([3; 32], [4; 32]);
    let b = node_body_at("n", "10.0.0.1/24", &[], &groups, &vk, 3, time(100, 7)).unwrap();
    assert_eq!(b.meta.not_after, time(100 + 3 * 86_400, 7));
    assert_eq!(b.keys.ed25519_pk, vk.ed25519);
    assert!(node_body_at("n", "", &[], &[], &vk, i64::MAX, time(0, 0)).is_none());
    assert!(generate_ca("x", i64::MAX, &[]).is_none());
}

#[test]
fn node_id_is_the_start_of_a_hash_of_the_keys() {
    let cert = Cert {
        body: body(),
        signature: CertSignature { ed25519: [0; 64], ml_dsa: [0; 3309] },
    };
    let mut hasher = blake3::Hasher::new();
    hasher.update(b"liteway-node-id-v1");
    hasher.update(&[0xab; 32]);
    hasher.update(&[0x01; 1952]);
    let hash = hasher.finalize();
    let expected = u32::from_be_bytes(hash.as_bytes()[..4].try_into().unwrap());
    assert_eq!(node_id_from_cert(&cert), expected);
}

#[test]
fn a_node_is_issued_a_certificate_for_its_keys() {
    let (sk, vk) = keypair_from_seeds([1; 32], [2; 32]);
    let ca = generate_ca_at("root", 2, &[], sk, vk, time(100, 7)).unwrap();
    let groups = vec!["ops".to_string()];
    let subnets = vec!["10.1.0.0/16".to_string(), "10.2.0.0/16".to_string()];
    let now = 1_700_000_000;
    let issue = |days: i64| {
        let (sk, vk) = keypair_from_seeds([3; 32], [4; 32]);
        generate_node_at("n", "10.0.0.1/24", &subnets, &groups, &ca.signing_key, days, sk, vk, time(now, 5))
    };
    let (cert, key) = issue(3).unwrap();
    let (_, vk) = keypair_from_seeds([3; 32], [4; 32]);
    assert_eq!(cert.body.meta.name, "n");
    assert!(!cert.body.meta.is_ca);
    assert_eq!(cert.body.meta.not_before, time(now, 5));
    assert_eq!(cert.body.meta.not_after, time(now + 3 * 86_400, 5));
    assert_eq!(cert.body.meta.groups, groups);
    assert_eq!(cert.body.addresses.as_ref().unwrap().subnets, subnets);
    assert_eq!(cert.body.keys.ed25519_pk, vk.ed25519);
    assert_eq!(key.signing_secret_key.ed25519, [3; 32]);
    assert_eq!(key.signing_secret_key.ml_dsa_seed, [4; 32]);
    assert!(cert.verify_at(&ca.cert.verify_key, now as u64 + 86_400));
    assert!(!cert.verify_at(&ca.cert.verify_key, now as u64 + 4 * 86_400));
    assert!(issue(i64::MAX).is_none());
}
