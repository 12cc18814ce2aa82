//! The configuration of a node.
use crate::addr::{IpAddr, SocketAddr};
use crate::bytes::array_from;
use crate::crypto::random::random_array;
use crate::frag::{DEFAULT_MAX_DATAGRAM, MIN_DATAGRAM};
use crate::text::{hex_decode, hex_encode, hex_text, hex_value, law_hex_is_read_back};
use vstd::prelude::*;
use vstd::utf8::encode_utf8;

verus! {

pub const NETWORK_SECRET_LEN: usize = 32;

/// A lighthouse: its name, and where it is reached, as a host name or an address with a
/// port.
#[derive(Debug, Clone)]
pub struct LighthouseConfig {
    pub name: String,
    pub address: String,
}

/// The interface that the mesh is reached through.
#[derive(Debug, Clone)]
pub struct InterfaceConfig {
    pub name: String,
    pub mtu: u16,
}

/// The configuration of a node.
#[derive(Debug, Clone)]
pub struct AppConfig {
    pub listen: SocketAddr,
    pub ca_cert_path: String,
    pub node_cert_path: String,
    pub node_key_path: String,
    pub network_secret: String,
    pub lighthouses: Vec<LighthouseConfig>,
    pub interface: Option<InterfaceConfig>,
    pub am_lighthouse: bool,
    pub am_relay: bool,
    pub punch_interval_secs: u64,
    pub keepalive_punch: bool,
    pub keepalive_timeout_secs: u64,
    pub relay_fallback_timeout_secs: u64,
}

/// What is wrong with a configuration.
#[derive(Debug, Clone, Copy, PartialEq, Eq, Structural)]
pub enum ConfigError {
    /// The network secret is not hexadecimal.
    SecretNotHex,
    /// The network secret is not 32 bytes encoded as 64 hexadecimal characters.
    SecretLength,
}

/// Where a node listens unless its configuration says otherwise: any address, any port.
pub fn default_listen() -> (r: SocketAddr)
    ensures
        r == (SocketAddr { ip: IpAddr::V4(0), port: 0, flowinfo: 0, scope_id: 0 }),
{
    SocketAddr { ip: IpAddr::V4(0), port: 0, flowinfo: 0, scope_id: 0 }
}

pub fn default_mtu() -> (r: u16)
    ensures
        r == 1300,
{
    1300
}

pub fn default_punch_interval() -> (r: u64)
    ensures
        r == 10,
{
    10
}

pub fn default_keepalive_punch() -> (r: bool)
    ensures
        r,
{
    true
}

pub fn default_keepalive_timeout() -> (r: u64)
    ensures
        r == 30,
{
    30
}

pub fn default_relay_fallback_timeout() -> (r: u64)
    ensures
        r == 5,
{
    5
}

impl Default for InterfaceConfig {
    fn default() -> (r: InterfaceConfig)
        ensures
            r.name@ == "liteway0"@,
            r.mtu == 1300,
    {
        InterfaceConfig { name: "liteway0".to_owned(), mtu: default_mtu() }
    }
}

/// What a network secret in hexadecimal stands for.
pub open spec fn secret_of(text: Seq<char>) -> Result<Seq<u8>, ConfigError> {
    match hex_value(encode_utf8(text)) {
        None => Err(ConfigError::SecretNotHex),
        Some(bytes) => if bytes.len() == NETWORK_SECRET_LEN {
            Ok(bytes)
        } else {
            Err(ConfigError::SecretLength)
        },
    }
}

impl AppConfig {
    /// The bytes of the network secret.
    pub fn network_secret(&self) -> (r: Result<[u8; NETWORK_SECRET_LEN], ConfigError>)
        ensures
            match r {
                Ok(bytes) => secret_of(self.network_secret@) == Ok::<Seq<u8>, ConfigError>(bytes@),
                Err(e) => secret_of(self.network_secret@) == Err::<Seq<u8>, ConfigError>(e),
            },
    {
        let bytes = match hex_decode(self.network_secret.as_str()) {
            Some(bytes) => bytes,
            None => return Err(ConfigError::SecretNotHex),
        };
        if bytes.len() != NETWORK_SECRET_LEN {
            return Err(ConfigError::SecretLength);
        }
        let secret: [u8; NETWORK_SECRET_LEN] = array_from(bytes.as_slice());
        assert(secret@ =~= bytes@);
        Ok(secret)
    }
}

/// A fresh network secret in hexadecimal.
pub fn generate_network_secret() -> (r: String)
    ensures
        exists|seed: Seq<u8>| seed.len() == NETWORK_SECRET_LEN && r@ == #[trigger] hex_text(seed),
{
    let seed: [u8; NETWORK_SECRET_LEN] = random_array();
    let ghost bytes = seed@;
    let r = hex_encode(&seed);
    assert(r@ == hex_text(bytes));
    r
}

/// What an MTU leaves for a UDP payload after the headers of IP and UDP, but neither too
/// small to be useful nor above the default.
pub open spec fn payload_room(mtu: int, v6: bool) -> int {
    let room = mtu - (if v6 {
        48int
    } else {
        28int
    });
    if room < MIN_DATAGRAM {
        MIN_DATAGRAM as int
    } else if room > DEFAULT_MAX_DATAGRAM {
        DEFAULT_MAX_DATAGRAM as int
    } else {
        room
    }
}

/// The largest UDP payload: what the interface's MTU leaves after the headers of IP and
/// UDP, but neither too small to be useful nor above the default; the default where there
/// is no interface.
pub fn udp_payload_limit(config: &AppConfig, listen: SocketAddr) -> (r: usize)
    ensures
        r == (match config.interface {
            None => DEFAULT_MAX_DATAGRAM as int,
            Some(iface) => payload_room(iface.mtu as int, listen.ip is V6),
        }),
        MIN_DATAGRAM <= r <= DEFAULT_MAX_DATAGRAM,
{
    let iface = match &config.interface {
        Some(iface) => iface,
        None => return DEFAULT_MAX_DATAGRAM,
    };
    let overhead: usize = match listen.ip {
        IpAddr::V6(_) => 48,
        IpAddr::V4(_) => 28,
    };
    let room: usize = (iface.mtu as usize).saturating_sub(overhead);
    if room < MIN_DATAGRAM {
        MIN_DATAGRAM
    } else if room > DEFAULT_MAX_DATAGRAM {
        DEFAULT_MAX_DATAGRAM
    } else {
        room
    }
}

/// A secret that was generated is accepted in a configuration.
pub proof fn law_generated_secret_is_accepted(seed: Seq<u8>)
    requires
        seed.len() == NETWORK_SECRET_LEN,
    ensures
        secret_of(hex_text(seed)) == Ok::<Seq<u8>, ConfigError>(seed),
{
    law_hex_is_read_back(seed);
}

/// A payload and its headers, 28 bytes over IPv4 and 48 over IPv6, fit the MTU wherever 53
/// bytes of payload do, and the payload is the largest that does, up to 1,200 bytes.
pub proof fn law_payload_fits_the_link(mtu: int, v6: bool)
    ensures
        ({
            let headers = if v6 {
                48int
            } else {
                28int
            };
            let payload = payload_room(mtu, v6);
            &&& 53 <= payload <= 1200
            &&& mtu >= 53 + headers ==> payload + headers <= mtu
            &&& 53 < payload < 1200 ==> payload + headers == mtu
            &&& mtu >= 1200 + headers ==> payload == 1200
            &&& mtu <= 53 + headers ==> payload == 53
        }),
{
}

/// A network secret is accepted exactly where its text is 32 bytes in hexadecimal.
pub proof fn law_secret_has_its_length(text: Seq<char>)
    ensures
        secret_of(text) is Ok <==> hex_value(encode_utf8(text)) is Some && hex_value(encode_utf8(text))->0.len() == 32,
        secret_of(text) matches Ok(secret) ==> Some(secret) == hex_value(encode_utf8(text)) && secret.len() == 32,
        secret_of(text) == Err::<Seq<u8>, ConfigError>(ConfigError::SecretNotHex) <==> hex_value(encode_utf8(text)) is None,
{
}

} // verus!
