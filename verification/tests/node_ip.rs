use liteway::net::{validate_node_ip_cidr, NodeIpError};

#[test]
fn node_ip_requires_cidr_prefix() {
    assert!(validate_node_ip_cidr("10.0.0.1").is_err());
}

#[test]
fn node_ip_rejects_host_only_prefix() {
    assert!(validate_node_ip_cidr("10.0.0.1/32").is_err());
    assert!(validate_node_ip_cidr("fd00::1/128").is_err());
}

#[test]
fn node_ip_accepts_mesh_prefix() {
    validate_node_ip_cidr("10.0.0.1/24").unwrap();
    validate_node_ip_cidr("fd00::1/64").unwrap();
}

#[test]
fn node_ip_errors_are_told_apart() {
    assert_eq!(validate_node_ip_cidr("10.0.0.1"), Err(NodeIpError::MissingPrefix));
    assert_eq!(validate_node_ip_cidr("10.0.0/24"), Err(NodeIpError::InvalidAddress));
    assert_eq!(validate_node_ip_cidr("10.0.0.1/33"), Err(NodeIpError::InvalidAddress));
    assert_eq!(validate_node_ip_cidr("10.0.0.1/0"), Err(NodeIpError::BreaksDiscovery));
    assert_eq!(validate_node_ip_cidr("10.0.0.1/32"), Err(NodeIpError::BreaksDiscovery));
    assert_eq!(validate_node_ip_cidr("10.0.0.1/1"), Ok(()));
    assert_eq!(validate_node_ip_cidr("10.0.0.1/31"), Ok(()));
}
