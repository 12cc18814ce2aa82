use liteway::addr::{IpAddr, IpNetwork, SocketAddr};
use liteway::cert;
use liteway::cert::{node_id_from_cert, CaSigningKey, CaVerifyKey, Cert};
use liteway::clock::Timestamp;
use liteway::crypto::K_HEADER_LEN;
use liteway::frag::{fragment_message_with, FragmentAssembler};
use liteway::handshake::{
    create_handshake_1_with, handshake_cert_bytes, HandshakeDraws, HandshakeError, HandshakeInitiate,
};
use liteway::hex_serde;
use liteway::mesh::connect::{JoinError, Punch};
use liteway::mesh::deliver::{Delivery, IntroductionError};
use liteway::mesh::outbound::{overlay_plan, Lookups, OverlayPlan, TunAction};
use liteway::mesh::receive::{Opened, Received, Step};
use liteway::mesh::{Identity, Mesh, Outgoing};
use liteway::packet::{
    encrypt_relay_forward_packet, network_header, packet_seq, serialize_packet, PacketBody,
};
use serde_json::Value;

fn text(value: &Value, key: &str) -> Option<String> {
    Some(value.get(key)?.as_str()?.to_string())
}

fn texts(value: &Value, key: &str) -> Option<Vec<String>> {
    let mut out = Vec::new();
    for item in value.get(key)?.as_array()? {
        out.push(item.as_str()?.to_string());
    }
    Some(out)
}

fn bytes<const N: usize>(value: &Value, key: &str) -> Option<[u8; N]> {
    hex_serde::deserialize::<N>(&text(value, key)?).ok()
}

fn time(value: &Value, key: &str) -> Option<Timestamp> {
    let t = chrono::DateTime::parse_from_rfc3339(&text(value, key)?).ok()?;
    Timestamp::new(t.timestamp(), t.timestamp_subsec_nanos())
}

fn body_of(value: &Value) -> Option<cert::CertBody> {
    let meta = value.get("meta")?;
    let keys = value.get("keys")?;
    let addresses = match value.get("addresses") {
        Some(a) => Some(cert::NodeAddresses {
            ip: text(a, "ip")?,
            subnets: texts(a, "subnets")?,
        }),
        None => None,
    };
    Some(cert::CertBody {
        meta: cert::CertMeta {
            name: text(meta, "name")?,
            is_ca: meta.get("is_ca")?.as_bool()?,
            not_before: time(meta, "not_before")?,
            not_after: time(meta, "not_after")?,
            groups: texts(meta, "groups")?,
        },
        keys: cert::KeyMaterial {
            ed25519_pk: bytes(keys, "ed25519_pk")?,
            ml_dsa_pk: bytes(keys, "ml_dsa_pk")?,
        },
        addresses,
    })
}

fn decode_cert(json: &[u8]) -> Option<Cert> {
    let value = serde_json::from_slice::<Value>(json).ok()?;
    let signature = value.get("signature")?;
    Some(Cert {
        body: body_of(value.get("body")?)?,
        signature: cert::CertSignature {
            ed25519: bytes(signature, "ed25519")?,
            ml_dsa: bytes(signature, "ml_dsa")?,
        },
    })
}

fn cert_in(data: &[u8], network_key: &[u8; K_HEADER_LEN]) -> Option<Cert> {
    decode_cert(&handshake_cert_bytes(data, network_key)?)
}

const NETWORK_KEY: [u8; K_HEADER_LEN] = [0x42; K_HEADER_LEN];

fn v4(a: u8, b: u8, c: u8, d: u8) -> IpAddr {
    IpAddr::V4(u32::from_be_bytes([a, b, c, d]))
}

fn endpoint(port: u16) -> SocketAddr {
    SocketAddr { ip: v4(192, 0, 2, 1), port, flowinfo: 0, scope_id: 0 }
}

struct Node {
    ident: Identity,
    mesh: Mesh,
    addr: SocketAddr,
}

struct Authority {
    sk: CaSigningKey,
    vk: CaVerifyKey,
}

fn authority() -> Authority {
    let ca = cert::generate_ca("ca", 10, &[]).unwrap();
    Authority { sk: ca.signing_key, vk: ca.cert.verify_key }
}

fn strings(list: &[&str]) -> Vec<String> {
    list.iter().map(|s| s.to_string()).collect()
}

fn node_with(ca: &Authority, name: &str, ip: &str, subnets: &[&str], groups: &[&str], port: u16) -> Node {
    let (cert, key) =
        cert::generate_node(name, ip, &strings(subnets), &strings(groups), &ca.sk, 30).unwrap();
    Node {
        ident: Identity {
            our_id: node_id_from_cert(&cert),
            cert,
            signing_key: key.signing_secret_key,
            network_key: NETWORK_KEY,
            ca_vk: ca.vk.clone(),
            am_lighthouse: false,
            am_relay: false,
        },
        mesh: Mesh::new(),
        addr: endpoint(port),
    }
}

fn node(ca: &Authority, name: &str, ip: &str, port: u16) -> Node {
    node_with(ca, name, ip, &[], &[], port)
}

fn now_of(node: &Node) -> u64 {
    node.ident.cert.body.meta.not_before.timestamp() as u64
}

fn start(node: &Node, now: u64, session: u32) -> HandshakeInitiate {
    let draws = HandshakeDraws {
        rx_session_id: session,
        random: [1; 16],
        padding: vec![],
        mask_nonce: [3; 8],
        nonce: [4; 12],
    };
    create_handshake_1_with(
        &node.ident.cert,
        &node.ident.signing_key,
        &NETWORK_KEY,
        node.ident.am_relay,
        [session as u8; 32],
        [session as u8; 64],
        draws,
        now,
    )
    .expect("the message is made")
}

fn connect(a: &mut Node, b: &mut Node, now: u64, session: u32) {
    let init = start(a, now, session);
    let msg = init.msg.clone();
    a.mesh.await_answer(init, b.addr, None, "b".to_string(), now);
    assert_eq!(b.mesh.classify(&b.ident, &msg), Step::Handshake1);
    let peer_cert = cert_in(&msg, &NETWORK_KEY);
    let answer = b.mesh.on_handshake_1(&b.ident, a.addr, &msg, peer_cert, now).ok().unwrap();
    assert_eq!(answer.peer_id, a.ident.our_id);
    assert!(b.mesh.is_established(a.addr));
    let named = match a.mesh.classify(&a.ident, &answer.msg) {
        Step::Handshake2(named) => named,
        step => panic!("an answer is taken as {step:?}"),
    };
    assert_eq!(named, session);
    let peer_cert = cert_in(&answer.msg, &NETWORK_KEY);
    let joined = a
        .mesh
        .on_handshake_2(&a.ident, b.addr, &answer.msg, named, peer_cert, now)
        .ok()
        .unwrap();
    assert_eq!(joined.peer_id, b.ident.our_id);
    assert!(a.mesh.is_established(b.addr));
}

fn ip_packet(from: [u8; 4], to: [u8; 4]) -> Vec<u8> {
    let mut p = vec![0u8; 28];
    p[0] = 0x45;
    p[12..16].copy_from_slice(&from);
    p[16..20].copy_from_slice(&to);
    p
}

fn wire_of(out: Outgoing) -> Vec<u8> {
    out.wire.expect("the packet is short enough")
}

fn open(node: &Node, wire: &[u8]) -> Opened {
    assert_eq!(node.mesh.classify(&node.ident, wire), Step::Session);
    node.mesh.open_packet(&node.ident, wire).expect("the packet opens")
}

fn send_data(a: &mut Node, packet: &[u8]) -> (u32, Outgoing) {
    match a.mesh.send_ip_packet(&a.ident, packet, &[]) {
        TunAction::Send(id, out) => (id, out),
        _ => panic!("the packet must be sent"),
    }
}

#[test]
fn ip_packets_travel_between_two_nodes() {
    let ca = authority();
    let mut a = node(&ca, "a", "10.0.0.1/24", 1);
    let mut b = node(&ca, "b", "10.0.0.2/24", 2);
    let now = now_of(&b);
    connect(&mut a, &mut b, now, 11);
    let packet = ip_packet([10, 0, 0, 1], [10, 0, 0, 2]);
    let (to, out) = send_data(&mut a, &packet);
    assert_eq!(to, b.ident.our_id);
    assert_eq!(out.addr, b.addr);
    let wire = wire_of(out);
    let opened = open(&b, &wire);
    assert_eq!(opened.peer_id, a.ident.our_id);
    assert_eq!(packet_seq(&opened.body), 1);
    let again = open(&b, &wire);
    match b.mesh.deliver(&b.ident, opened, None, a.addr, now) {
        Delivery::ToInterface(p) => assert_eq!(p, packet),
        _ => panic!("the packet is for the interface"),
    }
    assert!(matches!(b.mesh.deliver(&b.ident, again, None, a.addr, now), Delivery::Replayed));
    let back = ip_packet([10, 0, 0, 2], [10, 0, 0, 1]);
    let wire = wire_of(send_data(&mut b, &back).1);
    let opened = open(&a, &wire);
    assert!(matches!(a.mesh.deliver(&a.ident, opened, None, b.addr, now), Delivery::ToInterface(_)));
    assert!(b.mesh.open_packet(&b.ident, &wire).is_none());
}

#[test]
fn a_source_outside_the_routes_of_a_peer_is_refused() {
    let ca = authority();
    let mut a = node(&ca, "a", "10.0.0.1/24", 1);
    let mut b = node(&ca, "b", "10.0.0.2/24", 2);
    let now = now_of(&b);
    connect(&mut a, &mut b, now, 11);
    for packet in [ip_packet([10, 0, 0, 9], [10, 0, 0, 2]), ip_packet([10, 0, 0, 2], [10, 0, 0, 2])] {
        let wire = wire_of(send_data(&mut a, &packet).1);
        let opened = open(&b, &wire);
        assert!(matches!(b.mesh.deliver(&b.ident, opened, None, a.addr, now), Delivery::Unauthorized));
    }
}

#[test]
fn granted_subnets_are_routed() {
    let ca = authority();
    let mut a = node(&ca, "a", "10.0.0.1/24", 1);
    let mut b = node_with(
        &ca,
        "b",
        "10.0.0.2/24",
        &["192.168.1.0/24", "172.16.0.0/12", "0.0.0.0/0", "nonsense"],
        &["web", "route:192.168.0.0/16"],
        2,
    );
    let now = now_of(&b);
    connect(&mut a, &mut b, now, 11);
    assert_eq!(send_data(&mut a, &ip_packet([10, 0, 0, 1], [192, 168, 1, 77])).0, b.ident.our_id);
    for dst in [[192, 168, 2, 1], [172, 16, 0, 1], [8, 8, 8, 8]] {
        let dst_ip = v4(dst[0], dst[1], dst[2], dst[3]);
        match a.mesh.send_ip_packet(&a.ident, &ip_packet([10, 0, 0, 1], dst), &[]) {
            TunAction::NoRoute(ip) => assert_eq!(ip, dst_ip),
            _ => panic!("there is no route"),
        }
    }
}

#[test]
fn some_destinations_are_skipped() {
    let ca = authority();
    let mut a = node(&ca, "a", "10.0.0.1/24", 1);
    let overlay = [IpNetwork::new(v4(10, 0, 0, 0), 24).unwrap()];
    for dst in [[224, 0, 0, 1], [169, 254, 0, 1], [10, 0, 0, 255]] {
        let packet = ip_packet([10, 0, 0, 1], dst);
        assert!(matches!(
            a.mesh.send_ip_packet(&a.ident, &packet, &overlay),
            TunAction::Skipped(_)
        ));
    }
    let packet = ip_packet([10, 0, 0, 1], [10, 0, 0, 254]);
    assert!(matches!(a.mesh.send_ip_packet(&a.ident, &packet, &overlay), TunAction::NoRoute(_)));
    assert!(matches!(a.mesh.send_ip_packet(&a.ident, &packet[..19], &overlay), TunAction::Unparsable));
    assert!(matches!(a.mesh.send_ip_packet(&a.ident, &[], &overlay), TunAction::Unparsable));
    let mut six = vec![0u8; 40];
    six[0] = 0x60;
    six[24] = 0xfd;
    six[39] = 9;
    match a.mesh.send_ip_packet(&a.ident, &six, &overlay) {
        TunAction::NoRoute(ip) => assert_eq!(ip, IpAddr::V6(0xfd << 120 | 9)),
        _ => panic!("there is no route"),
    }
}

#[test]
fn keepalives_are_answered() {
    let ca = authority();
    let mut a = node(&ca, "a", "10.0.0.1/24", 1);
    let mut b = node(&ca, "b", "10.0.0.2/24", 2);
    let now = now_of(&b);
    connect(&mut a, &mut b, now, 11);
    assert!(a.mesh.lighthouse_keepalive(&a.ident, endpoint(99), 5, 30, now).is_none());
    let sent = a.mesh.lighthouse_keepalive(&a.ident, b.addr, 5, 30, now).unwrap();
    assert_eq!(sent.peer_id, b.ident.our_id);
    assert_eq!(sent.timed_out, None);
    let sent = a.mesh.lighthouse_keepalive(&a.ident, b.addr, 6, 30, now + 30).unwrap();
    assert_eq!(sent.timed_out, Some(5));
    let opened = open(&b, &wire_of(sent.out));
    let mut out = match b.mesh.deliver(&b.ident, opened, None, a.addr, now) {
        Delivery::Send(out) => out,
        _ => panic!("a keepalive must be answered"),
    };
    assert_eq!(out.len(), 1);
    let ack = out.remove(0);
    assert_eq!(ack.addr, a.addr);
    let opened = open(&a, &wire_of(ack));
    assert_eq!(opened.body, PacketBody::KeepaliveAck { seq: 1, token: 6 });
    assert!(matches!(a.mesh.deliver(&a.ident, opened, None, b.addr, now), Delivery::Acknowledged));
    let sent = a.mesh.lighthouse_keepalive(&a.ident, b.addr, 7, 30, now + 90).unwrap();
    assert_eq!(sent.timed_out, None);
}

fn deliver_query(lh: &mut Node, asking: &mut Node, target: IpAddr, now: u64) -> Vec<Outgoing> {
    let mut lookups = Lookups::new();
    let mut asked = asking.mesh.request_lighthouse_discovery(
        &asking.ident,
        target,
        &[endpoint(99), lh.addr],
        &mut lookups,
        now,
    );
    assert_eq!(asked.len(), 2);
    assert!(asked[0].is_none());
    let query = wire_of(asked.remove(1).unwrap());
    let again = asking.mesh.request_lighthouse_discovery(
        &asking.ident,
        target,
        &[lh.addr],
        &mut lookups,
        now + 9,
    );
    assert!(again.is_empty());
    assert_eq!(lookups.get(target), Some(now));
    let opened = open(lh, &query);
    match lh.mesh.deliver(&lh.ident, opened, None, asking.addr, now) {
        Delivery::Send(out) => out,
        _ => panic!("a lighthouse must answer"),
    }
}

#[test]
fn lighthouse_introduces_two_nodes() {
    let ca = authority();
    let mut lh = node(&ca, "lh", "10.0.0.100/24", 100);
    lh.ident.am_lighthouse = true;
    let mut a = node(&ca, "a", "10.0.0.1/24", 1);
    let mut b = node(&ca, "b", "10.0.0.2/24", 2);
    let now = now_of(&b);
    connect(&mut a, &mut lh, now, 11);
    connect(&mut b, &mut lh, now, 12);
    let mut out = deliver_query(&mut lh, &mut a, v4(10, 0, 0, 2), now);
    assert_eq!(out.len(), 2);
    let to_b = out.remove(1);
    let to_a = out.remove(0);
    assert_eq!((to_a.addr, to_b.addr), (a.addr, b.addr));
    let opened = open(&a, &wire_of(to_a));
    match &opened.body {
        PacketBody::LighthouseResponse { target_ip, peer_id, peer_addr, peer_cert, .. } => {
            assert_eq!(*target_ip, v4(10, 0, 0, 2));
            assert_eq!(*peer_id, b.ident.our_id);
            assert_eq!(*peer_addr, endpoint(2));
            assert_eq!(*peer_cert, b.ident.cert.to_bytes());
        }
        _ => panic!("the answer is a response"),
    }
    let unread = Opened { peer_id: opened.peer_id, body: opened.body.clone() };
    assert!(matches!(a.mesh.deliver(&a.ident, unread, None, lh.addr, now), Delivery::Dropped));
    match a.mesh.deliver(&a.ident, opened, Some(b.ident.cert.clone()), lh.addr, now) {
        Delivery::Connect(id, addr, name) => {
            assert_eq!(id, b.ident.our_id);
            assert_eq!(addr, b.addr);
            assert_eq!(name, "b");
        }
        _ => panic!("the introduction is to be followed"),
    }
    match open(&b, &wire_of(to_b)).body {
        PacketBody::LighthouseResponse { target_ip, peer_id, .. } => {
            assert_eq!(target_ip, v4(10, 0, 0, 1));
            assert_eq!(peer_id, a.ident.our_id);
        }
        _ => panic!("the answer is a response"),
    }
}

#[test]
fn lighthouse_says_when_it_knows_nobody() {
    let ca = authority();
    let mut lh = node(&ca, "lh", "10.0.0.100/24", 100);
    lh.ident.am_lighthouse = true;
    let mut a = node(&ca, "a", "10.0.0.1/24", 1);
    let now = now_of(&a);
    connect(&mut a, &mut lh, now, 11);
    let mut out = deliver_query(&mut lh, &mut a, v4(10, 0, 0, 9), now);
    assert_eq!(out.len(), 1);
    let opened = open(&a, &wire_of(out.remove(0)));
    match a.mesh.deliver(&a.ident, opened, None, lh.addr, now) {
        Delivery::NotFound(ip) => assert_eq!(ip, v4(10, 0, 0, 9)),
        _ => panic!("nobody is behind the address"),
    }
    let own = deliver_query(&mut lh, &mut a, v4(10, 0, 0, 1), now);
    assert_eq!(own.len(), 1);
}

#[test]
fn only_a_lighthouse_answers_queries() {
    let ca = authority();
    let mut a = node(&ca, "a", "10.0.0.1/24", 1);
    let mut b = node(&ca, "b", "10.0.0.2/24", 2);
    let now = now_of(&b);
    connect(&mut a, &mut b, now, 11);
    let mut lookups = Lookups::new();
    let mut asked = a.mesh.request_lighthouse_discovery(
        &a.ident,
        v4(10, 0, 0, 3),
        &[b.addr],
        &mut lookups,
        now,
    );
    let opened = open(&b, &wire_of(asked.remove(0).unwrap()));
    assert!(matches!(b.mesh.deliver(&b.ident, opened, None, a.addr, now), Delivery::Ignored));
    let nobody = a.mesh.request_lighthouse_discovery(
        &a.ident,
        v4(10, 0, 0, 4),
        &[endpoint(50)],
        &mut lookups,
        now,
    );
    assert!(nobody[0].is_none());
    assert_eq!(lookups.get(v4(10, 0, 0, 4)), None);
}

#[test]
fn bad_introductions_are_refused() {
    let ca = authority();
    let other = authority();
    let mut a = node(&ca, "a", "10.0.0.1/24", 1);
    let mut lh = node(&ca, "lh", "10.0.0.100/24", 100);
    let b = node(&ca, "b", "10.0.0.2/24", 2);
    let stranger = node(&other, "s", "10.0.0.2/24", 3);
    let now = now_of(&b);
    connect(&mut a, &mut lh, now, 11);
    let lh_id = lh.ident.our_id;
    let refused = |a: &mut Node, seq: u64, cert: &Cert, peer_id: u32, ip: IpAddr| {
        let body = PacketBody::LighthouseResponse {
            seq,
            target_ip: ip,
            peer_id,
            peer_addr: endpoint(2),
            peer_cert: vec![],
            peer_is_relay: false,
        };
        let opened = Opened { peer_id: lh_id, body };
        match a.mesh.deliver(&a.ident, opened, Some(cert.clone()), endpoint(100), now) {
            Delivery::RefusedIntroduction(e) => Some(e),
            Delivery::Connect(..) => None,
            _ => panic!("an introduction is refused or followed"),
        }
    };
    let ip = v4(10, 0, 0, 2);
    let id = b.ident.our_id;
    assert_eq!(
        refused(&mut a, 1, &stranger.ident.cert, stranger.ident.our_id, ip),
        Some(IntroductionError::CertInvalid)
    );
    assert_eq!(refused(&mut a, 2, &b.ident.cert, id ^ 1, ip), Some(IntroductionError::PeerIdMismatch));
    assert_eq!(
        refused(&mut a, 3, &b.ident.cert, id, v4(10, 0, 0, 3)),
        Some(IntroductionError::IpNotAuthorized)
    );
    assert_eq!(refused(&mut a, 4, &b.ident.cert, id, ip), None);
}

#[test]
fn relay_passes_packets_on_by_their_header() {
    let ca = authority();
    let mut a = node(&ca, "a", "10.0.0.1/24", 1);
    let mut b = node(&ca, "b", "10.0.0.2/24", 2);
    let mut relay = node(&ca, "relay", "10.0.0.3/24", 3);
    relay.ident.am_relay = true;
    let now = now_of(&relay);
    connect(&mut a, &mut b, now, 11);
    connect(&mut b, &mut relay, now, 12);
    let wire = wire_of(send_data(&mut a, &ip_packet([10, 0, 0, 1], [10, 0, 0, 2])).1);
    assert_eq!(relay.mesh.classify(&relay.ident, &wire), Step::Relay(b.addr));
    let mut assembler = FragmentAssembler::new();
    match relay.mesh.receive(&relay.ident, &mut assembler, a.addr, &wire, 0) {
        Received::Relay(addr) => assert_eq!(addr, b.addr),
        _ => panic!("the packet is passed on"),
    }
    relay.ident.am_relay = false;
    assert_eq!(relay.mesh.classify(&relay.ident, &wire), Step::Nothing);
    assert!(matches!(
        relay.mesh.receive(&relay.ident, &mut assembler, a.addr, &wire, 0),
        Received::Nothing
    ));
}

#[test]
fn relay_forwards_inner_packets() {
    let ca = authority();
    let mut a = node(&ca, "a", "10.0.0.1/24", 1);
    let mut b = node(&ca, "b", "10.0.0.2/24", 2);
    let mut relay = node(&ca, "relay", "10.0.0.3/24", 3);
    let now = now_of(&relay);
    connect(&mut a, &mut relay, now, 11);
    connect(&mut b, &mut relay, now, 12);
    let forward = |seq: u64, next: u32| Opened {
        peer_id: a.ident.our_id,
        body: PacketBody::RelayForward { seq, next_peer_id: next, inner_packet: vec![1, 2, 3] },
    };
    let first = forward(1, b.ident.our_id);
    assert!(matches!(relay.mesh.deliver(&relay.ident, first, None, a.addr, now), Delivery::Ignored));
    relay.ident.am_relay = true;
    let second = forward(2, b.ident.our_id);
    match relay.mesh.deliver(&relay.ident, second, None, a.addr, now) {
        Delivery::Forward(addr, packet) => {
            assert_eq!(addr, b.addr);
            assert_eq!(packet, [1, 2, 3]);
        }
        _ => panic!("the inner packet is passed on"),
    }
    let third = forward(3, 12345);
    assert!(matches!(relay.mesh.deliver(&relay.ident, third, None, a.addr, now), Delivery::Ignored));
    let outer = encrypt_relay_forward_packet(4, 5, 6, 7, b"x", &NETWORK_KEY, &[0; 32]);
    let wire = serialize_packet(&outer);
    assert_eq!(network_header(&wire, &NETWORK_KEY).unwrap().dst_peer_id, 5);
}

#[test]
fn fragments_wait_for_the_rest_of_their_message() {
    let ca = authority();
    let a = node(&ca, "a", "10.0.0.1/24", 1);
    let mut assembler = FragmentAssembler::new();
    let init = start(&a, now_of(&a), 3);
    let packets = fragment_message_with(&init.msg, &NETWORK_KEY, 1200, 0, 8).unwrap();
    let last = packets.len() - 1;
    for (i, p) in packets.iter().enumerate() {
        match a.mesh.receive(&a.ident, &mut assembler, endpoint(9), p, i as u64) {
            Received::Nothing => assert!(i < last),
            Received::Packet(msg) => {
                assert_eq!(i, last);
                assert_eq!(msg, init.msg);
            }
            Received::Relay(_) => panic!("the fragment is for this node"),
        }
    }
    assert!(matches!(
        a.mesh.receive(&a.ident, &mut assembler, endpoint(9), &[], 0),
        Received::Nothing
    ));
    match a.mesh.receive(&a.ident, &mut assembler, endpoint(9), b"noise", 0) {
        Received::Packet(p) => assert_eq!(p, b"noise"),
        _ => panic!("what is no fragment is a packet"),
    }
    assert_eq!(a.mesh.classify(&a.ident, b"noise"), Step::Nothing);
}

#[test]
fn a_peer_that_leaves_is_forgotten() {
    let ca = authority();
    let mut a = node(&ca, "a", "10.0.0.1/24", 1);
    let mut b = node(&ca, "b", "10.0.0.2/24", 2);
    let now = now_of(&b);
    connect(&mut a, &mut b, now, 11);
    let late = wire_of(send_data(&mut a, &ip_packet([10, 0, 0, 1], [10, 0, 0, 2])).1);
    let mut bye = a.mesh.disconnect_packets(&a.ident);
    assert_eq!(bye.len(), 1);
    let (id, out) = bye.remove(0);
    assert_eq!(id, b.ident.our_id);
    let opened = open(&b, &wire_of(out));
    assert_eq!(opened.body, PacketBody::Disconnect { seq: 2 });
    match b.mesh.deliver(&b.ident, opened, None, a.addr, now) {
        Delivery::Disconnected(routes) => {
            assert_eq!(routes, [IpNetwork::new(v4(10, 0, 0, 1), 32).unwrap()]);
        }
        _ => panic!("the session is over"),
    }
    assert!(!b.mesh.is_established(a.addr));
    assert!(b.mesh.open_packet(&b.ident, &late).is_none());
    let packet = ip_packet([10, 0, 0, 2], [10, 0, 0, 1]);
    assert!(matches!(b.mesh.send_ip_packet(&b.ident, &packet, &[]), TunAction::NoRoute(_)));
    assert!(b.mesh.disconnect_packets(&b.ident).is_empty());
}

#[test]
fn silent_peers_expire() {
    let ca = authority();
    let mut a = node(&ca, "a", "10.0.0.1/24", 1);
    let mut b = node(&ca, "b", "10.0.0.2/24", 2);
    let now = now_of(&b);
    connect(&mut a, &mut b, now, 11);
    assert!(b.mesh.expire_peers(now + 300).is_empty());
    assert_eq!(b.mesh.expire_peers(now + 301), [a.ident.our_id]);
    let wire = wire_of(send_data(&mut a, &ip_packet([10, 0, 0, 1], [10, 0, 0, 2])).1);
    assert!(b.mesh.open_packet(&b.ident, &wire).is_none());
    let packet = ip_packet([10, 0, 0, 2], [10, 0, 0, 1]);
    assert!(matches!(b.mesh.send_ip_packet(&b.ident, &packet, &[]), TunAction::NoRoute(_)));
    assert!(b.mesh.is_established(a.addr));
}

#[test]
fn a_second_handshake_replaces_the_first() {
    let ca = authority();
    let mut a = node(&ca, "a", "10.0.0.1/24", 1);
    let mut b = node(&ca, "b", "10.0.0.2/24", 2);
    let now = now_of(&b);
    connect(&mut a, &mut b, now, 11);
    let old = wire_of(send_data(&mut a, &ip_packet([10, 0, 0, 1], [10, 0, 0, 2])).1);
    connect(&mut a, &mut b, now, 12);
    assert!(b.mesh.open_packet(&b.ident, &old).is_none());
    let new = wire_of(send_data(&mut a, &ip_packet([10, 0, 0, 1], [10, 0, 0, 2])).1);
    assert_eq!(packet_seq(&open(&b, &new).body), 1);
}

#[test]
fn an_answer_needs_a_handshake_under_way() {
    let ca = authority();
    let mut a = node(&ca, "a", "10.0.0.1/24", 1);
    let mut b = node(&ca, "b", "10.0.0.2/24", 2);
    let now = now_of(&b);
    let init = start(&a, now, 11);
    let peer_cert = cert_in(&init.msg, &NETWORK_KEY);
    let answer = b.mesh.on_handshake_1(&b.ident, a.addr, &init.msg, peer_cert, now).ok().unwrap();
    assert_eq!(a.mesh.classify(&a.ident, &answer.msg), Step::Handshake2(11));
    let peer_cert = cert_in(&answer.msg, &NETWORK_KEY);
    assert_eq!(
        a.mesh.on_handshake_2(&a.ident, b.addr, &answer.msg, 11, peer_cert, now).err(),
        Some(JoinError::NoPending)
    );
    a.mesh.await_answer(init, b.addr, None, "b".to_string(), now);
    assert_eq!(
        a.mesh.on_handshake_2(&a.ident, b.addr, &answer.msg, 11, None, now).err(),
        Some(JoinError::Handshake(HandshakeError::CertDecode))
    );
    let peer_cert = cert_in(&answer.msg, &NETWORK_KEY);
    assert_eq!(
        a.mesh.on_handshake_2(&a.ident, b.addr, &answer.msg, 11, peer_cert, now).err(),
        Some(JoinError::NoPending)
    );
    let refused = b.mesh.on_handshake_1(&b.ident, a.addr, b"noise", None, now);
    assert_eq!(refused.err(), Some(HandshakeError::DecryptFailed));
}

#[test]
fn unanswered_handshakes_are_tried_through_a_relay() {
    let ca = authority();
    let mut a = node(&ca, "a", "10.0.0.1/24", 1);
    let mut relay = node(&ca, "relay", "10.0.0.3/24", 3);
    let now = now_of(&relay);
    let target = 4242;
    a.mesh.await_answer(start(&a, now, 21), endpoint(7), Some(target), "t".to_string(), now);
    a.mesh.await_answer(start(&a, now, 22), endpoint(8), None, "l".to_string(), now);
    assert!(a.mesh.relay_candidates(5, now + 4).is_empty());
    let found = a.mesh.relay_candidates(5, now + 5);
    assert_eq!(found.len(), 1);
    assert_eq!(found[0].session_id, 21);
    assert_eq!(found[0].peer_id, target);
    assert_eq!(found[0].peer_name, "t");
    assert_eq!(found[0].msg, start(&a, now, 21).msg);
    assert_eq!(a.mesh.relay_for(target), None);
    relay.ident.am_relay = true;
    connect(&mut relay, &mut a, now, 31);
    assert_eq!(a.mesh.relay_for(target), Some((relay.ident.our_id, relay.addr)));
    assert_eq!(a.mesh.relay_for(relay.ident.our_id), None);
    a.mesh.mark_relayed(21, relay.addr, now + 5);
    assert!(a.mesh.relay_candidates(5, now + 20).is_empty());
    assert!(a.mesh.relay_candidates(5, now + 66).is_empty());
    let none = a.mesh.on_handshake_2(&a.ident, relay.addr, b"", 21, None, now);
    assert_eq!(none.err(), Some(JoinError::NoPending));
}

#[test]
fn established_endpoints_get_no_new_handshake() {
    let ca = authority();
    let mut a = node(&ca, "a", "10.0.0.1/24", 1);
    let mut b = node(&ca, "b", "10.0.0.2/24", 2);
    let now = now_of(&b);
    assert_eq!(a.mesh.punch(b.addr, true), Punch::Handshake);
    connect(&mut a, &mut b, now, 11);
    assert_eq!(a.mesh.punch(b.addr, true), Punch::Keepalive);
    assert_eq!(a.mesh.punch(b.addr, false), Punch::Skip);
}

#[test]
fn the_address_of_the_interface_decides_about_discovery() {
    let net = IpNetwork::new(v4(10, 0, 0, 0), 24).unwrap();
    assert_eq!(overlay_plan("10.0.0.7/24", true), OverlayPlan::Network(net));
    assert_eq!(overlay_plan("10.0.0.7/32", true), OverlayPlan::BreaksDiscovery);
    assert_eq!(overlay_plan("10.0.0.7/32", false), OverlayPlan::Alone);
    assert_eq!(overlay_plan("10.0.0.7/0", false), OverlayPlan::Alone);
    assert_eq!(overlay_plan("ten", true), OverlayPlan::InvalidAddress);
}
