use liteway::addr::{IpAddr, IpNetwork};
use liteway::cert::{Cert, CertBody, CertMeta, CertSignature, KeyMaterial, NodeAddresses};
use liteway::clock::Timestamp;
use liteway::net::NetError;
use liteway::route::{
    authorized_peer_routes, authorizes_ip, discovery_route_from_interface_addr, host_route,
    is_default_route, is_overlay_broadcast, parse_dest_ip, parse_source_ip, primary_cert_ip,
    route_granted_by_cert, RouteTable,
};

fn v4(a: u8, b: u8, c: u8, d: u8) -> IpAddr {
    IpAddr::V4(u32::from_be_bytes([a, b, c, d]))
}

fn net(ip: IpAddr, prefix: u8) -> IpNetwork {
    IpNetwork::new(ip, prefix).unwrap()
}

fn cert(ip: Option<&str>, subnets: &[&str], groups: &[&str]) -> Cert {
    let strings = |list: &[&str]| list.iter().map(|s| s.to_string()).collect::<Vec<String>>();
    Cert {
        body: CertBody {
            meta: CertMeta {
                name: "n".to_string(),
                is_ca: false,
                not_before: Timestamp::new(0, 0).unwrap(),
                not_after: Timestamp::new(1, 0).unwrap(),
                groups: strings(groups),
            },
            keys: KeyMaterial { ed25519_pk: [0; 32], ml_dsa_pk: [0; 1952] },
            addresses: ip.map(|ip| NodeAddresses { ip: ip.to_string(), subnets: strings(subnets) }),
        },
        signature: CertSignature { ed25519: [0; 64], ml_dsa: [0; 3309] },
    }
}

#[test]
fn the_longest_prefix_decides() {
    let mut table = RouteTable::new();
    table.insert(net(v4(10, 0, 0, 0), 8), 1);
    table.insert(net(v4(10, 1, 0, 0), 16), 2);
    table.insert(net(v4(10, 1, 2, 0), 24), 3);
    assert_eq!(table.lookup(v4(10, 1, 2, 3)), Some(3));
    assert_eq!(table.lookup(v4(10, 1, 3, 3)), Some(2));
    assert_eq!(table.lookup(v4(10, 2, 3, 3)), Some(1));
    assert_eq!(table.lookup(v4(11, 0, 0, 1)), None);
    assert_eq!(table.lookup(IpAddr::V6(1)), None);
}

#[test]
fn a_new_route_is_taken() {
    let mut table = RouteTable::new();
    table.insert(net(v4(10, 0, 0, 0), 24), 1);
    table.insert(net(v4(10, 0, 0, 0), 24), 2);
    assert_eq!(table.lookup(v4(10, 0, 0, 5)), Some(2));
    table.insert(net(v4(10, 0, 0, 9), 24), 3);
    assert_eq!(table.lookup(v4(10, 0, 0, 5)), Some(3));
    table.remove_peer(3);
    assert_eq!(table.lookup(v4(10, 0, 0, 5)), Some(2));
    table.remove_peer(2);
    assert_eq!(table.lookup(v4(10, 0, 0, 5)), None);
}

#[test]
fn own_address_and_granted_subnets_are_authorized() {
    let c = cert(
        Some("10.0.0.5/24"),
        &["192.168.2.0/24", "192.168.1.0/24", "192.168.1.0/24", "172.16.0.0/12", "fd00::/64", "bad", "0.0.0.0/0"],
        &["route:192.168.0.0/16", "other", "route:fd00::/48"],
    );
    assert_eq!(
        authorized_peer_routes(&c),
        [
            net(v4(10, 0, 0, 5), 32),
            net(v4(192, 168, 1, 0), 24),
            net(v4(192, 168, 2, 0), 24),
            net(IpAddr::V6(0xfd00 << 112), 64),
        ]
    );
    assert!(authorizes_ip(&c, v4(192, 168, 2, 200)));
    assert!(!authorizes_ip(&c, v4(172, 16, 0, 1)));
}

#[test]
fn the_grant_for_all_routes_leaves_out_the_default_route() {
    let c = cert(Some("10.0.0.5/24"), &["0.0.0.0/0", "8.0.0.0/8", "::/0"], &["route:*"]);
    assert_eq!(authorized_peer_routes(&c), [net(v4(8, 0, 0, 0), 8), net(v4(10, 0, 0, 5), 32)]);
    assert!(authorized_peer_routes(&cert(None, &[], &["route:*"])).is_empty());
    assert_eq!(
        authorized_peer_routes(&cert(Some("nonsense"), &["8.0.0.0/8"], &["route:*"])),
        [net(v4(8, 0, 0, 0), 8)]
    );
}

#[test]
fn grants_cover_their_network_only() {
    let c = cert(None, &[], &["route:10.0.0.0/8", "route:x", "routes:192.168.0.0/16"]);
    assert!(route_granted_by_cert(&c, net(v4(10, 0, 0, 0), 8)));
    assert!(route_granted_by_cert(&c, net(v4(10, 9, 0, 0), 16)));
    assert!(!route_granted_by_cert(&c, net(v4(10, 0, 0, 0), 7)));
    assert!(!route_granted_by_cert(&c, net(v4(11, 0, 0, 0), 16)));
    assert!(!route_granted_by_cert(&c, net(v4(192, 168, 0, 0), 16)));
    assert!(is_default_route(net(v4(0, 0, 0, 0), 0)));
    assert!(!is_default_route(net(v4(0, 0, 0, 0), 1)));
}

#[test]
fn routes_are_read_from_addresses() {
    assert_eq!(host_route("10.0.0.5/24"), Ok(net(v4(10, 0, 0, 5), 32)));
    assert_eq!(host_route("fd00::1/64"), Ok(net(IpAddr::V6(0xfd00 << 112 | 1), 128)));
    assert_eq!(host_route("x"), Err(NetError::InvalidAddress));
    assert_eq!(
        discovery_route_from_interface_addr("10.0.0.5/24"),
        Ok(Some(net(v4(10, 0, 0, 0), 24)))
    );
    assert_eq!(discovery_route_from_interface_addr("10.0.0.5/32"), Ok(None));
    assert_eq!(discovery_route_from_interface_addr("10.0.0.5/0"), Ok(None));
    assert_eq!(discovery_route_from_interface_addr("10.0.0.5"), Ok(None));
    assert_eq!(discovery_route_from_interface_addr("x"), Err(NetError::InvalidAddress));
    assert_eq!(primary_cert_ip(&cert(Some("10.0.0.5/24"), &[], &[])), Some(v4(10, 0, 0, 5)));
    assert_eq!(primary_cert_ip(&cert(Some("x"), &[], &[])), None);
    assert_eq!(primary_cert_ip(&cert(None, &[], &[])), None);
}

#[test]
fn addresses_are_read_from_ip_packets() {
    let mut p: Vec<u8> = (0..20).collect();
    p[0] = 0x45;
    assert_eq!(parse_source_ip(&p), Some(v4(12, 13, 14, 15)));
    assert_eq!(parse_dest_ip(&p), Some(v4(16, 17, 18, 19)));
    assert_eq!(parse_source_ip(&p[..19]), None);
    let mut p: Vec<u8> = (0..40).collect();
    p[0] = 0x6f;
    assert_eq!(parse_source_ip(&p), Some(IpAddr::V6(0x08090a0b0c0d0e0f1011121314151617)));
    assert_eq!(parse_dest_ip(&p), Some(IpAddr::V6(0x18191a1b1c1d1e1f2021222324252627)));
    assert_eq!(parse_dest_ip(&p[..39]), None);
    p[0] = 0x50;
    assert_eq!(parse_dest_ip(&p), None);
    assert_eq!(parse_dest_ip(&[]), None);
}

#[test]
fn broadcast_addresses_of_overlay_networks() {
    let nets = [net(v4(10, 0, 0, 0), 24), net(v4(10, 9, 0, 1), 32), net(IpAddr::V6(0), 24)];
    assert!(is_overlay_broadcast(v4(10, 0, 0, 255), &nets));
    assert!(!is_overlay_broadcast(v4(10, 0, 0, 254), &nets));
    assert!(!is_overlay_broadcast(v4(10, 9, 0, 1), &nets));
    assert!(!is_overlay_broadcast(IpAddr::V6(0xff), &nets));
}
