//! The rules of setting up a network interface: addresses, masks and privileges.
use crate::addr::{law_network_goes_by_its_first_bits, parse_network, parsed_network, IpAddr, IpNetwork};
use crate::text::{after_prefix, contains_char, contains_text, occurs, strip_prefix, texts};
use vstd::arithmetic::power2::{lemma2_to64, pow2};
use vstd::bits::lemma_u32_shl_is_mul;
use vstd::prelude::*;

verus! {

/// Why the network could not be set up.
#[derive(Debug, Clone, Copy, PartialEq, Eq, Structural)]
pub enum NetError {
    /// The text is not an address with a prefix.
    InvalidAddress,
    /// The platform handles IPv4 only.
    OnlyIpv4,
    /// The platform is not supported.
    Unsupported,
}

/// Why a node cannot have an address.
#[derive(Debug, Clone, Copy, PartialEq, Eq, Structural)]
pub enum NodeIpError {
    /// The address has no prefix.
    MissingPrefix,
    /// The text is not an address with a prefix.
    InvalidAddress,
    /// The prefix names no network that other nodes could be in.
    BreaksDiscovery,
}

/// Whether a network has room for other nodes and is not everything.
pub open spec fn is_mesh(net: IpNetwork) -> bool {
    0 < net.prefix < net.ip.width()
}

/// The address and the prefix length that a text in CIDR notation holds.
pub fn parse_addr(addr: &str) -> (r: Result<(IpAddr, u8), NetError>)
    ensures
        r == (match parsed_network(addr@) {
            Some(net) => Ok((net.ip, net.prefix)),
            None => Err(NetError::InvalidAddress),
        }),
        r matches Ok((ip, prefix)) ==> prefix <= ip.width(),
{
    match parse_network(addr) {
        Some(net) => Ok((net.ip, net.prefix)),
        None => Err(NetError::InvalidAddress),
    }
}

/// `parse_addr` for a platform that handles IPv4 only.
pub fn parse_ipv4_addr(addr: &str) -> (r: Result<(u32, u8), NetError>)
    ensures
        r == (match parsed_network(addr@) {
            Some(net) => match net.ip {
                IpAddr::V4(ip) => Ok((ip, net.prefix)),
                IpAddr::V6(_) => Err(NetError::OnlyIpv4),
            },
            None => Err(NetError::InvalidAddress),
        }),
        r matches Ok((_, prefix)) ==> prefix <= 32,
{
    let (ip, prefix) = parse_addr(addr)?;
    match ip {
        IpAddr::V4(ip) => Ok((ip, prefix)),
        IpAddr::V6(_) => Err(NetError::OnlyIpv4),
    }
}

/// The IPv4 network mask of a prefix length: that many ones, then zeros.
pub open spec fn netmask(prefix: u8) -> int {
    0x1_0000_0000 - pow2((32 - prefix) as nat)
}

/// The IPv4 network mask of a prefix length: that many ones, then zeros.
pub fn ipv4_netmask(prefix: u8) -> (r: u32)
    requires
        prefix <= 32,
    ensures
        r == netmask(prefix),
{
    proof {
        lemma2_to64();
    }
    if prefix == 0 {
        return 0;
    }
    let host_bits: u32 = 32 - prefix as u32;
    proof {
        assert(((0xffff_ffffu32 << host_bits) as u64) + ((1u32 << host_bits) as u64) == 0x1_0000_0000u64) by (
            bit_vector)
            requires
                host_bits < 32,
        ;
        vstd::arithmetic::power2::lemma_pow2_strictly_increases(host_bits as nat, 32);
        lemma_u32_shl_is_mul(1, host_bits);
    }
    0xffff_ffffu32 << host_bits
}

/// The last address of the IPv4 network that an address lies in.
pub fn ipv4_broadcast(ip: u32, prefix: u8) -> (r: u32)
    requires
        prefix <= 32,
    ensures
        r == (IpNetwork { ip: IpAddr::V4(ip), prefix }).last_number(),
{
    let net = IpNetwork { ip: IpAddr::V4(ip), prefix };
    match net.broadcast_v4() {
        Some(b) => b,
        None => ip,
    }
}

/// Whether a node can have an address, given as text, in the mesh.
pub open spec fn node_ip_check(ip: Seq<char>) -> Result<(), NodeIpError> {
    if !ip.contains('/') {
        Err(NodeIpError::MissingPrefix)
    } else {
        match parsed_network(ip) {
            None => Err(NodeIpError::InvalidAddress),
            Some(net) => if is_mesh(net) {
                Ok(())
            } else {
                Err(NodeIpError::BreaksDiscovery)
            },
        }
    }
}

/// Checks the address that a node is to have in the mesh.
pub fn validate_node_ip_cidr(ip: &str) -> (r: Result<(), NodeIpError>)
    ensures
        r == node_ip_check(ip@),
{
    if !contains_char(ip, '/') {
        return Err(NodeIpError::MissingPrefix);
    }
    let net = match parse_network(ip) {
        Some(net) => net,
        None => return Err(NodeIpError::InvalidAddress),
    };
    if net.prefix == 0 || net.prefix >= net.ip.max_prefix() {
        return Err(NodeIpError::BreaksDiscovery);
    }
    Ok(())
}

/// Adding a route where the platform has no support for it.
pub fn add_route(_subnet: &str, _iface: &str) -> (r: Result<(), NetError>)
    ensures
        r == Err::<(), NetError>(NetError::Unsupported),
{
    Err(NetError::Unsupported)
}

/// Deleting a route where the platform has no support for it.
pub fn del_route(_subnet: &str, _iface: &str) -> (r: Result<(), NetError>)
    ensures
        r == Err::<(), NetError>(NetError::Unsupported),
{
    Err(NetError::Unsupported)
}

/// Setting an interface's address where the platform has no support for it.
pub fn set_interface_ip(_name: &str, _addr: &str) -> (r: Result<(), NetError>)
    ensures
        r == Err::<(), NetError>(NetError::Unsupported),
{
    Err(NetError::Unsupported)
}

/// Whether the error of adding a route says that the route is already there.
pub fn is_route_present_error(message: &str) -> (r: bool)
    ensures
        r == (occurs(message@, "File exists"@) || occurs(message@, "os error 17"@)),
{
    contains_text(message, "File exists") || contains_text(message, "os error 17")
}

/// Whether a character has the Unicode property `White_Space`.
pub open spec fn is_white_space(c: char) -> bool {
    ||| 0x09 <= c as u32 <= 0x0d
    ||| c as u32 == 0x20
    ||| c as u32 == 0x85
    ||| c as u32 == 0xa0
    ||| c as u32 == 0x1680
    ||| 0x2000 <= c as u32 <= 0x200a
    ||| c as u32 == 0x2028
    ||| c as u32 == 0x2029
    ||| c as u32 == 0x202f
    ||| c as u32 == 0x205f
    ||| c as u32 == 0x3000
}

/// A text without the white space at its start.
pub open spec fn trimmed_start(text: Seq<char>) -> Seq<char>
    decreases text.len(),
{
    if text.len() > 0 && is_white_space(text[0]) {
        trimmed_start(text.drop_first())
    } else {
        text
    }
}

/// A text without the white space at its end.
pub open spec fn trimmed_end(text: Seq<char>) -> Seq<char>
    decreases text.len(),
{
    if text.len() > 0 && is_white_space(text.last()) {
        trimmed_end(text.drop_last())
    } else {
        text
    }
}

/// A text without the white space at its ends.
pub open spec fn trimmed(text: Seq<char>) -> Seq<char> {
    trimmed_end(trimmed_start(text))
}

/// The value of a hexadecimal digit in either case.
pub open spec fn digit_value(c: char) -> Option<nat> {
    if '0' <= c <= '9' {
        Some((c as u32 - '0' as u32) as nat)
    } else if 'a' <= c <= 'f' {
        Some((c as u32 - 'a' as u32 + 10) as nat)
    } else if 'A' <= c <= 'F' {
        Some((c as u32 - 'A' as u32 + 10) as nat)
    } else {
        None
    }
}

/// The number that hexadecimal digits stand for; `None` where one is no digit.
pub open spec fn digits_value(digits: Seq<char>) -> Option<nat>
    decreases digits.len(),
{
    if digits.len() == 0 {
        Some(0)
    } else {
        match (digits_value(digits.drop_last()), digit_value(digits.last())) {
            (Some(high), Some(low)) => Some(high * 16 + low),
            _ => None,
        }
    }
}

/// The number that a text in hexadecimal stands for: at least one digit, with or without a
/// plus sign before them, and no more than 64 bits.
pub open spec fn hex_number(text: Seq<char>) -> Option<u64> {
    let digits = if text.len() > 0 && text[0] == '+' {
        text.drop_first()
    } else {
        text
    };
    match digits_value(digits) {
        Some(value) => if digits.len() > 0 && value <= u64::MAX {
            Some(value as u64)
        } else {
            None
        },
        None => None,
    }
}

/// `str::trim`: it takes off the white space at both ends, which it defines by the Unicode
/// property `White_Space`.
#[verifier::external_body]
fn trim(text: &str) -> (r: &str)
    ensures
        r@ == trimmed(text@),
{
    text.trim()
}

/// `u64::from_str_radix` with radix 16: it reads digits of either case after an optional
/// plus sign, and fails on anything else, on no digit and on overflow.
#[verifier::external_body]
fn parse_hex_number(text: &str) -> (r: Option<u64>)
    ensures
        r == hex_number(text@),
{
    u64::from_str_radix(text, 16).ok()
}

/// The effective capabilities that a line of a process status gives, if it gives them.
pub open spec fn line_capabilities(line: Seq<char>) -> Option<u64> {
    match after_prefix(line, "CapEff:\t"@) {
        Some(rest) => hex_number(trimmed(rest)),
        None => None,
    }
}

/// The effective capabilities that the lines of a process status give: the first that can
/// be read.
pub open spec fn capabilities(lines: Seq<Seq<char>>) -> Option<u64>
    decreases lines.len(),
{
    if lines.len() == 0 {
        None
    } else {
        match line_capabilities(lines[0]) {
            Some(mask) => Some(mask),
            None => capabilities(lines.drop_first()),
        }
    }
}

/// The bit of the capability to administer the network.
pub open spec fn net_admin_bit(mask: u64) -> bool {
    (mask / 0x1000) % 2 == 1
}

/// Whether the lines of a process status grant the capability to administer the network.
pub open spec fn grants_net_admin(lines: Seq<Seq<char>>) -> bool {
    match capabilities(lines) {
        Some(mask) => net_admin_bit(mask),
        None => false,
    }
}

/// Whether the lines of a process status grant the capability to administer the network.
pub fn has_net_admin(lines: &[String]) -> (r: bool)
    ensures
        r == grants_net_admin(texts(lines@)),
{
    let mut i: usize = 0;
    let ghost all = texts(lines@);
    assert(all.skip(0) =~= all);
    while i < lines.len()
        invariant
            i <= lines@.len(),
            all == texts(lines@),
            capabilities(all) == capabilities(all.skip(i as int)),
        decreases lines@.len() - i,
    {
        let ghost rest = all.skip(i as int);
        assert(rest[0] == lines@[i as int]@);
        assert(rest.drop_first() =~= all.skip(i + 1));
        if let Some(hex) = strip_prefix(lines[i].as_str(), "CapEff:\t") {
            if let Some(mask) = parse_hex_number(trim(hex)) {
                assert((mask & (1u64 << 12) != 0) == ((mask / 0x1000) % 2 == 1)) by (bit_vector);
                return mask & (1u64 << 12) != 0;
            }
        }
        i = i + 1;
    }
    false
}

/// Whether a process with the given effective user may administer the network: it is the
/// superuser, or the lines of its status grant the capability.
pub open spec fn administers(euid: u32, lines: Seq<Seq<char>>) -> bool {
    euid == 0 || grants_net_admin(lines)
}

/// Whether a process with the given effective user may administer the network.
pub fn may_administer(euid: u32, lines: &[String]) -> (r: bool)
    ensures
        r == administers(euid, texts(lines@)),
{
    euid == 0 || has_net_admin(lines)
}

/// A node can have an address exactly where the text has a prefix that leaves room for other
/// nodes and is not everything: 1 to 31 bits for IPv4, 1 to 127 for IPv6.
pub proof fn law_node_addresses(ip: Seq<char>)
    ensures
        node_ip_check(ip) is Ok <==> ip.contains('/') && match parsed_network(ip) {
            Some(net) => match net.ip {
                IpAddr::V4(_) => 1 <= net.prefix <= 31,
                IpAddr::V6(_) => 1 <= net.prefix <= 127,
            },
            None => false,
        },
        node_ip_check(ip) == Err::<(), NodeIpError>(NodeIpError::MissingPrefix) <==> !ip.contains('/'),
        ip.contains('/') && parsed_network(ip) is None ==> node_ip_check(ip) == Err::<(), NodeIpError>(
            NodeIpError::InvalidAddress,
        ),
{
}

/// The capabilities that a process has are those of the first line that starts with `CapEff:`
/// and a tab and goes on with a number.
pub proof fn law_first_line_gives_the_capabilities(lines: Seq<Seq<char>>, i: int, rest: Seq<char>, mask: u64)
    requires
        0 <= i < lines.len(),
        lines[i] == "CapEff:\t"@ + rest,
        hex_number(trimmed(rest)) == Some(mask),
        forall|j: int, other: Seq<char>|
            0 <= j < i && #[trigger] lines[j] == #[trigger] ("CapEff:\t"@ + other) ==> hex_number(trimmed(other)) is None,
    ensures
        capabilities(lines) == Some(mask),
    decreases lines.len(),
{
    let start = "CapEff:\t"@;
    if i == 0 {
        assert(start.is_prefix_of(lines[0]));
        assert(lines[0].skip(start.len() as int) =~= rest);
    } else {
        if after_prefix(lines[0], start) is Some {
            let other = lines[0].skip(start.len() as int);
            assert(lines[0] =~= start + other);
        }
        let later = lines.drop_first();
        assert forall|j: int, other: Seq<char>|
            0 <= j < i - 1 && #[trigger] later[j] == #[trigger] (start + other) implies hex_number(trimmed(other)) is None by {
            assert(lines[j + 1] == start + other);
        }
        law_first_line_gives_the_capabilities(later, i - 1, rest, mask);
    }
}

/// A process whose status has no such line has no capabilities.
pub proof fn law_no_line_gives_no_capabilities(lines: Seq<Seq<char>>)
    requires
        forall|j: int, other: Seq<char>|
            0 <= j < lines.len() && #[trigger] lines[j] == #[trigger] ("CapEff:\t"@ + other) ==> hex_number(
                trimmed(other),
            ) is None,
    ensures
        capabilities(lines) is None,
    decreases lines.len(),
{
    let start = "CapEff:\t"@;
    if lines.len() > 0 {
        if after_prefix(lines[0], start) is Some {
            let other = lines[0].skip(start.len() as int);
            assert(lines[0] =~= start + other);
        }
        let later = lines.drop_first();
        assert forall|j: int, other: Seq<char>|
            0 <= j < later.len() && #[trigger] later[j] == #[trigger] (start + other) implies hex_number(
            trimmed(other),
        ) is None by {
            assert(lines[j + 1] == start + other);
        }
        law_no_line_gives_no_capabilities(later);
    }
}

/// The capability to administer the network is the thirteenth bit.
pub proof fn law_network_is_administered_by_bit_twelve(mask: u64)
    ensures
        net_admin_bit(mask) <==> mask & 0x1000 != 0,
{
    assert((mask / 0x1000) % 2 == 1 <==> mask & 0x1000 != 0) by (bit_vector);
}

/// A process may administer the network if it is the superuser's, or if the first line of its
/// status that starts with `CapEff:` and a tab and goes on with a number has the thirteenth bit
/// in that number.
pub proof fn law_who_administers_the_network(euid: u32, lines: Seq<Seq<char>>, i: int, rest: Seq<char>, mask: u64)
    requires
        0 <= i < lines.len(),
        lines[i] == "CapEff:\t"@ + rest,
        hex_number(trimmed(rest)) == Some(mask),
        forall|j: int, other: Seq<char>|
            0 <= j < i && #[trigger] lines[j] == #[trigger] ("CapEff:\t"@ + other) ==> hex_number(trimmed(other)) is None,
    ensures
        administers(euid, lines) <==> euid == 0 || mask & 0x1000 != 0,
        grants_net_admin(lines) <==> mask & 0x1000 != 0,
        administers(0, lines),
{
    law_first_line_gives_the_capabilities(lines, i, rest, mask);
    law_network_is_administered_by_bit_twelve(mask);
}

/// The mask of a prefix length selects the network: two addresses are in the same network of
/// that length if and only if they are equal under the mask.
pub proof fn law_mask_selects_the_network(a: u32, b: u32, prefix: u8, mask: u32)
    requires
        prefix <= 32,
        mask == netmask(prefix),
    ensures
        (IpNetwork { ip: IpAddr::V4(a), prefix }).holds(IpAddr::V4(b)) <==> a & mask == b & mask,
{
    let net = IpNetwork { ip: IpAddr::V4(a), prefix };
    lemma2_to64();
    law_network_goes_by_its_first_bits(net, a, b);
    if prefix == 0 {
        assert(a & 0 == 0 && b & 0 == 0) by (bit_vector);
    } else {
        let k = (32 - prefix) as u32;
        vstd::arithmetic::power2::lemma_pow2_strictly_increases(k as nat, 32);
        lemma_u32_shl_is_mul(1, k);
        assert(mask == (0x1_0000_0000u64 - ((1u32 << k) as u64)) as u32);
        assert((a ^ b) >> k == 0 <==> a & mask == b & mask) by (bit_vector)
            requires
                k < 32,
                mask == (0x1_0000_0000u64 - ((1u32 << k) as u64)) as u32,
        ;
    }
}

} // verus!
