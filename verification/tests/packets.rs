use liteway::addr::{IpAddr, SocketAddr};
use liteway::cert::{Cert, CertBody, CertMeta, CertSignature, KeyMaterial};
use liteway::clock::Timestamp;
use liteway::packet::{
    decode_header, decrypt_packet, derive_traffic_key, deserialize_packet, encode_header, encrypt_disconnect_packet,
    encrypt_keepalive_packet, mask_network_header, network_header, packet_aad, packet_seq, seal_with,
    serialize_packet, encrypt_lighthouse_not_found_packet, encrypt_lighthouse_query_packet,
    try_encrypt_lighthouse_response_packet, NetworkHeader, PacketBody, KIND_DATA, KIND_DISCONNECT,
    KIND_KEEPALIVE, MIN_PACKET_LEN,
};

const NETWORK_KEY: [u8; 32] = [0x21; 32];
const SESSION_KEY: [u8; 32] = [0x22; 32];

fn header(kind: u8) -> NetworkHeader {
    NetworkHeader {
        kind,
        frag_index: 3,
        frag_total: 9,
        dst_peer_id: 0x01020304,
        session_id: 0x05060708,
    }
}

#[test]
fn header_is_masked_with_a_keyed_hash() {
    let masked = mask_network_header(header(KIND_DATA), &[9; 8], &NETWORK_KEY);
    let mask_key = blake3::derive_key("liteway-network-header-mask-v1", &NETWORK_KEY);
    let mask = blake3::keyed_hash(&mask_key, &[9; 8]);
    let plain = [0x21, 3, 9, 0, 1, 2, 3, 4, 5, 6, 7, 8, 0, 0, 0, 0];
    for i in 0..16 {
        assert_eq!(masked[i], plain[i] ^ mask.as_bytes()[i]);
    }
}

#[test]
fn header_survives_masking() {
    for kind in [0x11, 0x12, 0x13, 0x21, 0x22, 0x23, 0x24, 0x25, 0x26, 0x27, 0x28] {
        let pkt = seal_with(header(kind), b"", &NETWORK_KEY, &SESSION_KEY, [1; 8], [2; 12]);
        let wire = serialize_packet(&pkt);
        assert_eq!(wire.len(), MIN_PACKET_LEN);
        assert_eq!(network_header(&wire, &NETWORK_KEY), Some(header(kind)));
    }
    for kind in [0x00, 0x10, 0x14, 0x20, 0x29] {
        let pkt = seal_with(header(kind), b"", &NETWORK_KEY, &SESSION_KEY, [1; 8], [2; 12]);
        assert_eq!(network_header(&serialize_packet(&pkt), &NETWORK_KEY), None);
    }
}

#[test]
fn a_header_is_its_sixteen_bytes() {
    let bytes = [0x21, 3, 9, 0, 1, 2, 3, 4, 5, 6, 7, 8, 0, 0, 0, 0];
    assert_eq!(encode_header(header(KIND_DATA)), bytes);
    assert_eq!(decode_header(&bytes), Some(header(KIND_DATA)));
    for i in [3, 12, 13, 14, 15] {
        let mut changed = bytes;
        changed[i] = 1;
        assert_eq!(decode_header(&changed), None);
    }
    let mut changed = bytes;
    changed[0] = 0x14;
    assert_eq!(decode_header(&changed), None);
}

#[test]
fn a_response_needs_an_address_that_can_be_read() {
    let packet_key = blake3::derive_key("liteway-packet-key-v2", &SESSION_KEY);
    let body_of = |addr: &[u8]| {
        let mut plain = vec![0x25];
        plain.extend_from_slice(&7u64.to_be_bytes());
        plain.extend_from_slice(&8u32.to_be_bytes());
        plain.extend_from_slice(b"10.0.0.1");
        plain.extend_from_slice(&5u32.to_be_bytes());
        plain.extend_from_slice(&(addr.len() as u32).to_be_bytes());
        plain.extend_from_slice(addr);
        plain.extend_from_slice(&2u32.to_be_bytes());
        plain.extend_from_slice(b"{}");
        plain.push(1);
        let pkt = seal_with(header(0x25), &plain, &NETWORK_KEY, &packet_key, [1; 8], [2; 12]);
        decrypt_packet(&serialize_packet(&pkt), &NETWORK_KEY, &SESSION_KEY).map(|(_, body)| body)
    };
    assert_eq!(
        body_of(b"[::1%3]:9"),
        Some(PacketBody::LighthouseResponse {
            seq: 7,
            target_ip: IpAddr::V4(0x0a000001),
            peer_id: 5,
            peer_addr: SocketAddr { ip: IpAddr::V6(1), port: 9, flowinfo: 0, scope_id: 3 },
            peer_cert: b"{}".to_vec(),
            peer_is_relay: true,
        })
    );
    assert_eq!(body_of(b"nowhere"), None);
    assert_eq!(body_of(&[0xff, 0xfe]), None);
}

#[test]
fn reserved_bytes_must_be_zero() {
    let pkt = seal_with(header(KIND_DATA), b"", &NETWORK_KEY, &SESSION_KEY, [1; 8], [2; 12]);
    for i in [3, 12, 13, 14, 15] {
        let mut changed = pkt.clone();
        changed.masked_header[i] ^= 1;
        assert_eq!(network_header(&serialize_packet(&changed), &NETWORK_KEY), None);
    }
}

#[test]
fn packet_is_taken_apart_as_it_was_put_together() {
    let pkt = seal_with(header(KIND_DATA), b"payload", &NETWORK_KEY, &SESSION_KEY, [1; 8], [2; 12]);
    let wire = serialize_packet(&pkt);
    assert_eq!(deserialize_packet(&wire), Some(pkt.clone()));
    assert_eq!(deserialize_packet(&wire[..MIN_PACKET_LEN - 1]), None);
    assert_eq!(&packet_aad(&pkt)[..], &wire[..24]);
    assert_eq!(&wire[..8], &[1; 8]);
    assert_eq!(&wire[24..36], &[2; 12]);
}

#[test]
fn traffic_key_is_bound_to_its_direction() {
    let mut input = SESSION_KEY.to_vec();
    input.extend_from_slice(&[0, 0, 0, 1, 0, 0, 0, 2]);
    assert_eq!(
        derive_traffic_key(&SESSION_KEY, 1, 2),
        blake3::derive_key("liteway-traffic-key-v2", &input)
    );
    assert_ne!(derive_traffic_key(&SESSION_KEY, 1, 2), derive_traffic_key(&SESSION_KEY, 2, 1));
}

#[test]
fn the_kind_in_the_header_must_be_that_of_the_body() {
    let packet_key = blake3::derive_key("liteway-packet-key-v2", &SESSION_KEY);
    let mut plain = vec![KIND_DISCONNECT];
    plain.extend_from_slice(&7u64.to_be_bytes());
    let mut h = header(KIND_DISCONNECT);
    let pkt = seal_with(h, &plain, &NETWORK_KEY, &packet_key, [1; 8], [2; 12]);
    let (seen, body) = decrypt_packet(&serialize_packet(&pkt), &NETWORK_KEY, &SESSION_KEY).unwrap();
    assert_eq!(seen, h);
    assert_eq!(body, PacketBody::Disconnect { seq: 7 });
    h.kind = KIND_KEEPALIVE;
    let pkt = seal_with(h, &plain, &NETWORK_KEY, &packet_key, [1; 8], [2; 12]);
    assert!(decrypt_packet(&serialize_packet(&pkt), &NETWORK_KEY, &SESSION_KEY).is_none());
    let pkt = seal_with(header(KIND_DISCONNECT), &plain[..8], &NETWORK_KEY, &packet_key, [1; 8], [2; 12]);
    assert!(decrypt_packet(&serialize_packet(&pkt), &NETWORK_KEY, &SESSION_KEY).is_none());
}

#[test]
fn disconnect_and_keepalive_carry_their_numbers() {
    let wire = serialize_packet(&encrypt_disconnect_packet(5, 1, 2, &NETWORK_KEY, &SESSION_KEY));
    let (h, body) = decrypt_packet(&wire, &NETWORK_KEY, &SESSION_KEY).unwrap();
    assert_eq!((h.dst_peer_id, h.session_id), (1, 2));
    assert_eq!(packet_seq(&body), 5);
    let wire = serialize_packet(&encrypt_keepalive_packet(u64::MAX, 1, 2, 3, &NETWORK_KEY, &SESSION_KEY));
    let (_, body) = decrypt_packet(&wire, &NETWORK_KEY, &SESSION_KEY).unwrap();
    assert_eq!(body, PacketBody::Keepalive { seq: u64::MAX, token: 3 });
    let again = serialize_packet(&encrypt_keepalive_packet(u64::MAX, 1, 2, 3, &NETWORK_KEY, &SESSION_KEY));
    assert_ne!(wire, again);
}

#[test]
fn addresses_of_both_families_are_carried() {
    for target_ip in [
        IpAddr::V4(0x0a000001),
        IpAddr::V4(0),
        IpAddr::V6(0),
        IpAddr::V6(1),
        IpAddr::V6(0xffff_0a00_0001),
        IpAddr::V6(0xfd00_0000_0000_0000_0001_0000_0000_0000),
        IpAddr::V6(u128::MAX),
    ] {
        let pkt =
            encrypt_lighthouse_query_packet(1, 2, 3, target_ip, &NETWORK_KEY, &SESSION_KEY);
        let (_, body) = decrypt_packet(&serialize_packet(&pkt), &NETWORK_KEY, &SESSION_KEY).unwrap();
        assert_eq!(body, PacketBody::LighthouseQuery { seq: 1, target_ip });
        let pkt = encrypt_lighthouse_not_found_packet(1, 2, 3, target_ip, &NETWORK_KEY, &SESSION_KEY);
        let (_, body) = decrypt_packet(&serialize_packet(&pkt), &NETWORK_KEY, &SESSION_KEY).unwrap();
        assert_eq!(body, PacketBody::LighthouseNotFound { seq: 1, target_ip });
    }
}

#[test]
fn response_carries_the_certificate_as_it_is_written() {
    let cert = Cert {
        body: CertBody {
            meta: CertMeta {
                name: "n\u{e9}".to_string(),
                is_ca: false,
                not_before: Timestamp::new(0, 1).unwrap(),
                not_after: Timestamp::new(59, 1_500_000_000).unwrap(),
                groups: vec![],
            },
            keys: KeyMaterial { ed25519_pk: [1; 32], ml_dsa_pk: [2; 1952] },
            addresses: None,
        },
        signature: CertSignature { ed25519: [3; 64], ml_dsa: [4; 3309] },
    };
    let peer_addr = SocketAddr { ip: IpAddr::V6(1), port: 9, flowinfo: 0, scope_id: 0 };
    let target_ip = IpAddr::V4(7);
    let pkt = try_encrypt_lighthouse_response_packet(
        1, 2, 3, target_ip, 4, peer_addr, &cert, true, &NETWORK_KEY, &SESSION_KEY,
    )
    .unwrap();
    let (_, body) = decrypt_packet(&serialize_packet(&pkt), &NETWORK_KEY, &SESSION_KEY).unwrap();
    assert_eq!(
        body,
        PacketBody::LighthouseResponse {
            seq: 1,
            target_ip,
            peer_id: 4,
            peer_addr,
            peer_cert: cert.to_bytes(),
            peer_is_relay: true,
        }
    );
    let json = String::from_utf8(cert.to_bytes()).unwrap();
    assert!(json.contains("\"not_before\":\"1970-01-01T00:00:00.000000001Z\""));
    assert!(json.contains("\"not_after\":\"1970-01-01T00:00:60.500Z\""));
    assert!(json.contains("\"name\":\"n\u{e9}\""));
}
