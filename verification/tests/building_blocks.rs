use chacha20poly1305::aead::{Aead, KeyInit, Payload};
use ed25519_dalek::Signer;
use liteway::addr::{format_socket_addr, is_link_local, parse_socket_addr, IpAddr, IpNetwork, SocketAddr};
use liteway::bytes::{put_u16, put_u32, put_u64, put_vec_u32, u32_from_be, u64_from_be, Reader};
use liteway::clock::{secs_of_reading, Timestamp};
use liteway::config::{
    default_keepalive_punch, default_keepalive_timeout, default_listen, default_mtu,
    default_punch_interval, default_relay_fallback_timeout, generate_network_secret,
    udp_payload_limit, AppConfig, ConfigError, InterfaceConfig, LighthouseConfig,
};
use liteway::crypto::{aead, hybrid_kem, hybrid_sig, kdf};
use liteway::hex_serde::{deserialize, serialize, HexError};
use liteway::net::{
    add_route, del_route, has_net_admin, ipv4_broadcast, ipv4_netmask, is_route_present_error,
    may_administer, parse_addr, parse_ipv4_addr, set_interface_ip, NetError,
};
use liteway::packet::padding_len;
use liteway::replay::ReplayWindow;

fn v4(a: u8, b: u8, c: u8, d: u8) -> IpAddr {
    IpAddr::V4(u32::from_be_bytes([a, b, c, d]))
}

fn endpoint(ip: IpAddr, port: u16) -> SocketAddr {
    SocketAddr { ip, port, flowinfo: 0, scope_id: 0 }
}

#[test]
fn numbers_are_written_most_significant_byte_first() {
    let mut out = Vec::new();
    put_u16(&mut out, 0x0102);
    put_u32(&mut out, 0x03040506);
    put_u64(&mut out, 0x0708090a0b0c0d0e);
    put_vec_u32(&mut out, b"xyz");
    assert_eq!(
        out,
        [1, 2, 3, 4, 5, 6, 7, 8, 9, 10, 11, 12, 13, 14, 0, 0, 0, 3, b'x', b'y', b'z']
    );
}

#[test]
fn reader_gives_back_what_was_written() {
    let mut out = Vec::new();
    put_u16(&mut out, 0xfffe);
    put_u32(&mut out, 0xdeadbeef);
    put_u64(&mut out, 0x0123456789abcdef);
    put_vec_u32(&mut out, b"field");
    out.push(9);
    let mut rd = Reader::new(&out);
    assert_eq!(rd.u16(), Some(0xfffe));
    assert_eq!(rd.u32(), Some(0xdeadbeef));
    assert_eq!(rd.u64(), Some(0x0123456789abcdef));
    assert_eq!(rd.vec_u32(), Some(&b"field"[..]));
    assert_eq!(rd.pos(), 23);
    assert_eq!(rd.array::<2>(), None);
    assert_eq!(rd.u8(), Some(9));
    assert_eq!(rd.u8(), None);
    assert_eq!(rd.bytes(0), Some(&b""[..]));
}

#[test]
fn reader_refuses_a_field_longer_than_the_data() {
    let mut rd = Reader::new(&[0, 0, 0, 4, 1, 2, 3]);
    assert_eq!(rd.vec_u32(), None);
    assert_eq!(rd.pos(), 4);
    assert_eq!(rd.vec_u32(), None);
    assert_eq!(rd.u128(), None);
    assert_eq!(rd.pos(), 4);
    let mut rd = Reader::new(&[0xff, 0xff, 0xff, 0xff, 1]);
    assert_eq!(rd.vec_u32(), None);
    let data: Vec<u8> = (1..=16).collect();
    let mut rd = Reader::new(&data);
    assert_eq!(rd.u128(), Some(0x0102030405060708090a0b0c0d0e0f10));
}

#[test]
fn keys_are_derived_with_blake3() {
    let secret = [7u8; 32];
    assert_eq!(
        kdf::derive_network_key(&secret),
        blake3::derive_key("liteway-network-key-v1", &secret)
    );
    let shared = [9u8; 64];
    assert_eq!(
        kdf::derive_session_key(&shared),
        blake3::derive_key("liteway-session-key-v1", &shared)
    );
    let mut input = vec![1u8; 32];
    input.extend_from_slice(&[2u8; 12]);
    assert_eq!(
        kdf::derive_payload_key(&[1u8; 32], &[2u8; 12]),
        blake3::derive_key("liteway-payload-key-v1", &input)
    );
    assert_eq!(
        kdf::derive_labeled_key("label", b"input"),
        blake3::derive_key("label", b"input")
    );
}

#[test]
fn aead_is_chacha20_poly1305() {
    let key = [3u8; 32];
    let nonce = [4u8; 12];
    let cipher = chacha20poly1305::ChaCha20Poly1305::new_from_slice(&key).unwrap();
    let expected = cipher
        .encrypt(
            &chacha20poly1305::Nonce::from(nonce),
            Payload { msg: b"message", aad: b"data" },
        )
        .unwrap();
    let sealed = aead::encrypt(&key, &nonce, b"message", b"data");
    assert_eq!(sealed, expected);
    assert_eq!(sealed.len(), 7 + 16);
    assert_eq!(aead::decrypt(&key, &nonce, &sealed, b"data"), Some(b"message".to_vec()));
    assert_eq!(aead::decrypt(&key, &nonce, &sealed, b"other"), None);
    assert_eq!(aead::decrypt(&key, &nonce, &sealed[..15], b"data"), None);
}

#[test]
fn signatures_have_an_ed25519_half() {
    let (sk, vk) = hybrid_sig::keypair_from_seeds([5u8; 32], [6u8; 32]);
    let ed = ed25519_dalek::SigningKey::from_bytes(&[5u8; 32]);
    assert_eq!(vk.ed25519, ed.verifying_key().to_bytes());
    let sig = hybrid_sig::hybrid_sign(&sk, b"text");
    assert_eq!(sig.ed25519, ed.sign(b"text").to_bytes());
    assert!(hybrid_sig::hybrid_verify(&vk, b"text", &sig));
    let again = hybrid_sig::try_hybrid_sign(&sk, b"text").unwrap();
    assert_eq!(again.ml_dsa, sig.ml_dsa);
}

#[test]
fn both_halves_of_a_signature_must_hold() {
    let (sk, vk) = hybrid_sig::keypair_from_seeds([5u8; 32], [6u8; 32]);
    let mut sig = hybrid_sig::hybrid_sign(&sk, b"text");
    sig.ml_dsa[100] ^= 1;
    assert!(!hybrid_sig::hybrid_verify(&vk, b"text", &sig));
    let mut sig = hybrid_sig::hybrid_sign(&sk, b"text");
    sig.ed25519[40] ^= 1;
    assert!(!hybrid_sig::hybrid_verify(&vk, b"text", &sig));
}

#[test]
fn secrets_of_an_exchange_agree() {
    let (eph_sk, eph_pk, mlkem_sk, mlkem_pk) = hybrid_kem::ephemeral_from_seeds([1u8; 32], [2u8; 64]);
    let sk = x25519_dalek::StaticSecret::from([1u8; 32]);
    assert_eq!(eph_pk, x25519_dalek::PublicKey::from(&sk).to_bytes());
    let (pk, secret, ct) = hybrid_kem::try_encapsulate(&eph_pk, &mlkem_pk.bytes).unwrap();
    assert_eq!(
        &secret[..32],
        sk.diffie_hellman(&x25519_dalek::PublicKey::from(pk)).as_bytes()
    );
    assert_eq!(hybrid_kem::decapsulate(eph_sk, &pk, &mlkem_sk.seed, &ct), secret);
    let other = hybrid_kem::mlkem_sk_from_seed(&[3u8; 64]);
    assert_ne!(hybrid_kem::decapsulate(eph_sk, &pk, &other.seed, &ct), secret);
}

#[test]
fn an_encapsulation_key_out_of_range_is_refused() {
    assert!(hybrid_kem::try_encapsulate(&[9u8; 32], &[0xff; hybrid_kem::MLKEM_PK_LEN]).is_none());
}

#[test]
fn secret_keys_are_overwritten() {
    let (mut sk, _) = hybrid_sig::keypair_from_seeds([5u8; 32], [6u8; 32]);
    sk.zeroize();
    assert_eq!(sk.ed25519, [0u8; 32]);
    assert_eq!(sk.ml_dsa_seed, [0u8; 32]);
    let (mut sk, _) = hybrid_kem::generate_hybrid_keypair();
    sk.zeroize();
    assert_eq!(sk.x25519, [0u8; 32]);
    assert_eq!(sk.ml_kem, [0u8; 64]);
}

#[test]
fn byte_arrays_are_read_back_from_hexadecimal() {
    assert_eq!(serialize(&[0x00, 0x9a, 0xff]), "009aff");
    assert_eq!(deserialize::<3>("009aFF"), Ok([0x00, 0x9a, 0xff]));
    assert_eq!(deserialize::<3>("009aff00"), Err(HexError::WrongLength(4)));
    assert_eq!(deserialize::<3>("009afg"), Err(HexError::NotHex));
    assert_eq!(deserialize::<3>("009af"), Err(HexError::NotHex));
    assert_eq!(deserialize::<0>(""), Ok([]));
}

fn config_with(network_secret: &str, interface: Option<InterfaceConfig>) -> AppConfig {
    AppConfig {
        listen: default_listen(),
        ca_cert_path: String::new(),
        node_cert_path: String::new(),
        node_key_path: String::new(),
        network_secret: network_secret.to_string(),
        lighthouses: vec![LighthouseConfig {
            name: "lh-domain".to_string(),
            address: "lh.example.test:4242".to_string(),
        }],
        interface,
        am_lighthouse: false,
        am_relay: false,
        punch_interval_secs: default_punch_interval(),
        keepalive_punch: default_keepalive_punch(),
        keepalive_timeout_secs: default_keepalive_timeout(),
        relay_fallback_timeout_secs: default_relay_fallback_timeout(),
    }
}

#[test]
fn network_secret_errors_are_told_apart() {
    assert_eq!(
        config_with("not-hex", None).network_secret(),
        Err(ConfigError::SecretNotHex)
    );
    assert_eq!(
        config_with(&"11".repeat(31), None).network_secret(),
        Err(ConfigError::SecretLength)
    );
    assert_eq!(config_with("", None).network_secret(), Err(ConfigError::SecretLength));
}

#[test]
fn generated_network_secret_is_accepted() {
    let secret = generate_network_secret();
    assert_eq!(secret.len(), 64);
    let bytes = config_with(&secret, None).network_secret().unwrap();
    assert_eq!(serialize(&bytes), secret);
    assert_ne!(secret, generate_network_secret());
}

#[test]
fn defaults_of_a_configuration() {
    let iface = InterfaceConfig::default();
    assert_eq!(iface.name, "liteway0");
    assert_eq!(iface.mtu, 1300);
    assert_eq!(default_mtu(), 1300);
    assert_eq!(default_punch_interval(), 10);
    assert!(default_keepalive_punch());
    assert_eq!(default_keepalive_timeout(), 30);
    assert_eq!(default_relay_fallback_timeout(), 5);
    assert_eq!(default_listen(), endpoint(v4(0, 0, 0, 0), 0));
}

#[test]
fn payload_limit_follows_the_mtu() {
    let with_mtu = |mtu| config_with("", Some(InterfaceConfig { name: String::new(), mtu }));
    let four = endpoint(v4(0, 0, 0, 0), 1);
    let six = endpoint(IpAddr::V6(0), 1);
    assert_eq!(udp_payload_limit(&config_with("", None), four), 1200);
    assert_eq!(udp_payload_limit(&with_mtu(1300), four), 1200);
    assert_eq!(udp_payload_limit(&with_mtu(1000), four), 972);
    assert_eq!(udp_payload_limit(&with_mtu(1000), six), 952);
    assert_eq!(udp_payload_limit(&with_mtu(80), four), 53);
    assert_eq!(udp_payload_limit(&with_mtu(0), six), 53);
    assert_eq!(udp_payload_limit(&with_mtu(1228), four), 1200);
    assert_eq!(udp_payload_limit(&with_mtu(1227), four), 1199);
}

#[test]
fn networks_hold_the_addresses_with_their_prefix() {
    let net = IpNetwork::new(v4(10, 1, 2, 3), 22).unwrap();
    assert!(net.contains(v4(10, 1, 0, 0)));
    assert!(net.contains(v4(10, 1, 3, 255)));
    assert!(!net.contains(v4(10, 1, 4, 0)));
    assert!(!net.contains(IpAddr::V6(0)));
    assert_eq!(net.network(), v4(10, 1, 0, 0));
    assert_eq!(net.broadcast_v4(), Some(u32::from_be_bytes([10, 1, 3, 255])));
    let all = IpNetwork::new(v4(10, 1, 2, 3), 0).unwrap();
    assert!(all.contains(v4(255, 255, 255, 255)));
    assert_eq!(all.network(), v4(0, 0, 0, 0));
    let six = IpNetwork::new(IpAddr::V6(0xfd00 << 112 | 5), 64).unwrap();
    assert!(six.contains(IpAddr::V6(0xfd00 << 112)));
    assert!(!six.contains(IpAddr::V6(0xfd00 << 112 | 1 << 64)));
    assert_eq!(six.network(), IpAddr::V6(0xfd00 << 112));
    assert_eq!(six.broadcast_v4(), None);
    let everything = IpNetwork::new(IpAddr::V6(1), 0).unwrap();
    assert!(everything.contains(IpAddr::V6(u128::MAX)));
    assert_eq!(everything.network(), IpAddr::V6(0));
    assert_eq!(IpNetwork::new(v4(1, 2, 3, 4), 33), None);
    assert_eq!(IpNetwork::new(IpAddr::V6(1), 129), None);
}

#[test]
fn special_addresses_are_recognised() {
    assert!(v4(224, 0, 0, 1).is_multicast());
    assert!(v4(239, 255, 255, 255).is_multicast());
    assert!(!v4(240, 0, 0, 0).is_multicast());
    assert!(IpAddr::V6(0xff02 << 112 | 1).is_multicast());
    assert!(!IpAddr::V6(0xfe80 << 112).is_multicast());
    assert!(is_link_local(v4(169, 254, 3, 4)));
    assert!(!is_link_local(v4(169, 255, 0, 0)));
    assert!(is_link_local(IpAddr::V6(0xfebf << 112)));
    assert!(!is_link_local(IpAddr::V6(0xfec0 << 112)));
}

#[test]
fn socket_addresses_are_read_back_from_their_text() {
    let scoped = SocketAddr { ip: IpAddr::V6(0xfe80 << 112 | 2), port: 80, flowinfo: 0, scope_id: 12 };
    let full = IpAddr::V6(u128::MAX);
    let mapped = IpAddr::V6(0xffff_0102_0304);
    for addr in [
        endpoint(v4(127, 0, 0, 1), 4242),
        endpoint(v4(255, 255, 255, 255), 0),
        endpoint(IpAddr::V6(0), 65535),
        endpoint(mapped, 1),
        scoped,
        SocketAddr { ip: full, port: 65535, flowinfo: 0, scope_id: u32::MAX },
    ] {
        assert_eq!(parse_socket_addr(&format_socket_addr(addr)), Some(addr));
    }
    let flowing = SocketAddr { flowinfo: 7, ..scoped };
    assert_eq!(parse_socket_addr(&format_socket_addr(flowing)), Some(scoped));
    assert_eq!(parse_socket_addr("1.2.3.4:0080"), Some(endpoint(v4(1, 2, 3, 4), 80)));
    assert_eq!(parse_socket_addr("[::1%0]:9"), Some(endpoint(IpAddr::V6(1), 9)));
    for text in [
        "", ":", "[", "[]", "1.2.3.4", "1.2.3.4:", "1.2.3.4:65536", "1.2.3.4:+80", "1.2.3.4:8 ", "1.2.3:80",
        "[1.2.3.4]:80", "::1:80", "[::1]", "[::1]:", "[::1]80", "[::1]:x", "[::1%]:9", "[::1%4294967296]:9",
        "[::1%1%2]:9", "localhost:80", "\u{663}.2.3.4:80",
    ] {
        assert_eq!(parse_socket_addr(text), None, "{text}");
    }
}

#[test]
fn socket_addresses_have_a_text() {
    assert_eq!(format_socket_addr(endpoint(v4(127, 0, 0, 1), 4242)), "127.0.0.1:4242");
    assert_eq!(format_socket_addr(endpoint(v4(1, 2, 3, 4), 0)), "1.2.3.4:0");
    assert_eq!(format_socket_addr(endpoint(IpAddr::V6(1), 65535)), "[::1]:65535");
    assert_eq!(
        format_socket_addr(SocketAddr {
            ip: IpAddr::V6(0xfe80 << 112 | 2),
            port: 80,
            flowinfo: 7,
            scope_id: 12,
        }),
        "[fe80::2%12]:80"
    );
}

#[test]
fn interface_addresses_are_parsed() {
    assert_eq!(parse_addr("10.0.0.1/24"), Ok((v4(10, 0, 0, 1), 24)));
    assert_eq!(parse_addr("10.0.0.1"), Ok((v4(10, 0, 0, 1), 32)));
    assert_eq!(parse_addr("fd00::1/64"), Ok((IpAddr::V6(0xfd00 << 112 | 1), 64)));
    assert_eq!(parse_addr("10.0.0.1/99"), Err(NetError::InvalidAddress));
    assert_eq!(parse_addr("host"), Err(NetError::InvalidAddress));
    assert_eq!(parse_ipv4_addr("10.0.0.1/24"), Ok((0x0a000001, 24)));
    assert_eq!(parse_ipv4_addr("fd00::1/64"), Err(NetError::OnlyIpv4));
    assert_eq!(parse_ipv4_addr(""), Err(NetError::InvalidAddress));
}

#[test]
fn masks_and_broadcast_addresses() {
    assert_eq!(ipv4_netmask(0), 0);
    assert_eq!(ipv4_netmask(24), 0xffffff00);
    assert_eq!(ipv4_netmask(32), 0xffffffff);
    assert_eq!(ipv4_broadcast(0x0a000001, 24), 0x0a0000ff);
    assert_eq!(ipv4_broadcast(0x0a000001, 32), 0x0a000001);
    assert_eq!(ipv4_broadcast(0x0a000001, 0), 0xffffffff);
}

#[test]
fn unsupported_platforms_say_so() {
    assert_eq!(add_route("10.0.0.0/8", "eth0"), Err(NetError::Unsupported));
    assert_eq!(del_route("10.0.0.0/8", "eth0"), Err(NetError::Unsupported));
    assert_eq!(set_interface_ip("eth0", "10.0.0.1/8"), Err(NetError::Unsupported));
}

#[test]
fn a_route_that_is_there_is_no_error() {
    assert!(is_route_present_error("Received a netlink error message File exists (os error 17)"));
    assert!(is_route_present_error("os error 17"));
    assert!(!is_route_present_error("File not found (os error 2)"));
    assert!(!is_route_present_error(""));
}

fn lines(text: &str) -> Vec<String> {
    text.lines().map(|l| l.to_string()).collect()
}

#[test]
fn capability_is_read_from_the_process_status() {
    assert!(has_net_admin(&lines("Name:\tx\nCapEff:\t0000000000001000\n")));
    assert!(has_net_admin(&lines("CapEff:\t  000001ffffffffff  \n")));
    assert!(!has_net_admin(&lines("CapEff:\t0000000000000fff\n")));
    assert!(!has_net_admin(&lines("CapPrm:\t0000000000001000\n")));
    assert!(!has_net_admin(&lines("CapEff: 0000000000001000\n")));
    assert!(has_net_admin(&lines("CapEff:\tzz\nCapEff:\t1000\n")));
    assert!(!has_net_admin(&[]));
    assert!(has_net_admin(&lines("CapEff:\t+1000\n")));
    assert!(has_net_admin(&lines("CapEff:\tffffffffffffffff\n")));
    assert!(!has_net_admin(&lines("CapEff:\t10000000000001000\n")));
    assert!(!has_net_admin(&lines("CapEff:\t-1000\nCapEff:\t\n")));
    assert!(may_administer(0, &[]));
    assert!(!may_administer(1000, &[]));
    assert!(may_administer(1000, &lines("CapEff:\t0000000000001000\n")));
    assert!(!may_administer(1000, &lines("CapEff:\t0000000000000fff\n")));
}

#[test]
fn drawn_values_are_turned_into_numbers() {
    assert_eq!(u32_from_be(&[1, 2, 3, 4]), 0x01020304);
    assert_eq!(u64_from_be(&[1, 2, 3, 4, 5, 6, 7, 0xff]), 0x01020304050607ff);
    assert_eq!(padding_len(0), 0);
    assert_eq!(padding_len(31), 31);
    assert_eq!(padding_len(32), 0);
    assert_eq!(padding_len(255), 31);
    assert_eq!(secs_of_reading(Some(1_700_000_000)), 1_700_000_000);
    assert_eq!(secs_of_reading(None), 0);
}

#[test]
fn timestamps_are_in_range() {
    assert!(Timestamp::new(0, 999_999_999).is_some());
    assert!(Timestamp::new(0, 1_000_000_000).is_none());
    assert!(Timestamp::new(59, 1_999_999_999).is_some());
    assert!(Timestamp::new(-1, 1_000_000_000).is_some());
    assert!(Timestamp::new(-2, 1_000_000_000).is_none());
    assert!(Timestamp::new(59, 2_000_000_000).is_none());
    assert!(Timestamp::new(8_210_266_876_799, 0).is_some());
    assert!(Timestamp::new(8_210_266_876_800, 0).is_none());
    assert!(Timestamp::new(-8_334_601_228_800, 0).is_some());
    assert!(Timestamp::new(-8_334_601_228_801, 0).is_none());
    assert!(chrono::DateTime::<chrono::Utc>::from_timestamp(8_210_266_876_799, 0).is_some());
    assert!(chrono::DateTime::<chrono::Utc>::from_timestamp(8_210_266_876_800, 0).is_none());
    assert!(chrono::DateTime::<chrono::Utc>::from_timestamp(-8_334_601_228_800, 0).is_some());
    assert!(chrono::DateTime::<chrono::Utc>::from_timestamp(-8_334_601_228_801, 0).is_none());
}

#[test]
fn days_are_added_to_a_timestamp() {
    let t = Timestamp::new(1_000, 5).unwrap();
    let later = t.plus_days(2).unwrap();
    assert_eq!(later.timestamp(), 173_800);
    assert_eq!(later.timestamp_subsec_nanos(), 5);
    assert_eq!(t.plus_days(-1).unwrap().timestamp(), -85_400);
    assert!(t.plus_days(i64::MAX).is_none());
    assert!(t.plus_days(95_026_237).is_none());
}

#[test]
fn no_sequence_number_is_accepted_twice() {
    let mut w = ReplayWindow::new();
    let mut accepted = Vec::new();
    for seq in [5u64, 3, 5, 4, 70, 6, 7, 70, 69, 69, 200, 136, 137, 137, 4, u64::MAX, 0] {
        if w.accept(seq) {
            assert!(!accepted.contains(&seq));
            accepted.push(seq);
        }
    }
    assert_eq!(accepted, [5, 3, 4, 70, 7, 69, 200, 137, u64::MAX]);
}

#[test]
fn a_gap_as_long_as_the_window_clears_it() {
    let mut w = ReplayWindow::new();
    assert!(w.accept(0));
    assert!(w.accept(64));
    assert!(!w.accept(0));
    assert!(w.accept(1));
    assert!(!w.accept(1));
}
