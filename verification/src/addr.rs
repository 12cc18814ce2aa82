//! IP addresses, networks and socket addresses as plain numbers.
use crate::text::{
    decimal, decimal_digit, decimal_number, decimal_value, law_decimal_is_read_back, lemma_decimal_len,
    lemma_split_first, parse_decimal, put_decimal, split_at_first, split_first,
};
use std::str::FromStr;
use vstd::arithmetic::div_mod::{lemma_fundamental_div_mod, lemma_mod_bound};
use vstd::arithmetic::power2::{lemma2_to64, lemma_pow2_adds, lemma_pow2_pos, lemma_pow2_unfold, pow2};
use vstd::bits::lemma_u128_shr_is_div;
use vstd::prelude::*;

verus! {

/// An IP address, held as the number that its octets form, most significant first.
#[derive(Debug, Clone, Copy, PartialEq, Eq, Structural, Hash)]
pub enum IpAddr {
    V4(u32),
    V6(u128),
}

/// An IP address with the length of its network prefix. The host bits of the address
/// need not be zero.
#[derive(Debug, Clone, Copy, PartialEq, Eq, Structural, Hash)]
pub struct IpNetwork {
    pub ip: IpAddr,
    pub prefix: u8,
}

/// The address of a UDP endpoint. `flowinfo` and `scope_id` are those of an IPv6 socket
/// address and zero for IPv4.
#[derive(Debug, Clone, Copy, PartialEq, Eq, Structural, Hash)]
pub struct SocketAddr {
    pub ip: IpAddr,
    pub port: u16,
    pub flowinfo: u32,
    pub scope_id: u32,
}

/// No text of an address has more characters than this.
pub const IP_TEXT_LIMIT: usize = 45;

/// No text of a socket address has more characters than this.
pub const SOCKET_TEXT_LIMIT: usize = 69;

/// The address that a text stands for, if it is that of an address.
pub uninterp spec fn parsed_ip(text: Seq<char>) -> Option<IpAddr>;

/// The text of an address.
pub uninterp spec fn ip_text(ip: IpAddr) -> Seq<char>;

/// The network that a text in CIDR notation stands for, if it is one.
pub uninterp spec fn parsed_network(text: Seq<char>) -> Option<IpNetwork>;

impl IpAddr {
    /// The number of bits of an address of this family.
    pub open spec fn width(self) -> nat {
        match self {
            IpAddr::V4(_) => 32,
            IpAddr::V6(_) => 128,
        }
    }

    /// The address as a number.
    pub open spec fn bits(self) -> nat {
        match self {
            IpAddr::V4(b) => b as nat,
            IpAddr::V6(b) => b as nat,
        }
    }

    /// The address as a number.
    fn number(self) -> (r: u128)
        ensures
            r == self.bits(),
    {
        match self {
            IpAddr::V4(b) => b as u128,
            IpAddr::V6(b) => b,
        }
    }

    /// The number of bits of an address of this family.
    pub fn max_prefix(self) -> (r: u8)
        ensures
            r == self.width(),
    {
        match self {
            IpAddr::V4(_) => 32,
            IpAddr::V6(_) => 128,
        }
    }

    /// Whether both addresses are of one family.
    pub open spec fn same_family(self, other: IpAddr) -> bool {
        self is V4 == other is V4
    }

    /// Whether the address is a multicast address: 224.0.0.0/4 or ff00::/8.
    pub open spec fn multicast(self) -> bool {
        match self {
            IpAddr::V4(b) => 0xe000_0000 <= b < 0xf000_0000,
            IpAddr::V6(b) => 0xff00_0000_0000_0000_0000_0000_0000_0000 <= b,
        }
    }

    /// Whether the address is link-local: 169.254.0.0/16 or fe80::/10.
    pub open spec fn link_local(self) -> bool {
        match self {
            IpAddr::V4(b) => 0xa9fe_0000 <= b <= 0xa9fe_ffff,
            IpAddr::V6(b) => 0xfe80_0000_0000_0000_0000_0000_0000_0000 <= b
                < 0xfec0_0000_0000_0000_0000_0000_0000_0000,
        }
    }

    /// Whether the address is a multicast address.
    pub fn is_multicast(self) -> (r: bool)
        ensures
            r == self.multicast(),
    {
        match self {
            IpAddr::V4(b) => 0xe000_0000 <= b && b < 0xf000_0000,
            IpAddr::V6(b) => 0xff00_0000_0000_0000_0000_0000_0000_0000 <= b,
        }
    }

    /// Whether `self` comes before `other`: IPv4 before IPv6, then by number.
    pub open spec fn before(self, other: IpAddr) -> bool {
        match (self, other) {
            (IpAddr::V4(a), IpAddr::V4(b)) => a < b,
            (IpAddr::V6(a), IpAddr::V6(b)) => a < b,
            (IpAddr::V4(_), IpAddr::V6(_)) => true,
            (IpAddr::V6(_), IpAddr::V4(_)) => false,
        }
    }

    /// Whether `self` comes before `other`.
    pub fn is_before(self, other: IpAddr) -> (r: bool)
        ensures
            r == self.before(other),
    {
        match (self, other) {
            (IpAddr::V4(a), IpAddr::V4(b)) => a < b,
            (IpAddr::V6(a), IpAddr::V6(b)) => a < b,
            (IpAddr::V4(_), IpAddr::V6(_)) => true,
            (IpAddr::V6(_), IpAddr::V4(_)) => false,
        }
    }
}

/// Whether the address is link-local.
pub fn is_link_local(ip: IpAddr) -> (r: bool)
    ensures
        r == ip.link_local(),
{
    match ip {
        IpAddr::V4(b) => 0xa9fe_0000 <= b && b <= 0xa9fe_ffff,
        IpAddr::V6(b) => 0xfe80_0000_0000_0000_0000_0000_0000_0000 <= b && b
            < 0xfec0_0000_0000_0000_0000_0000_0000_0000,
    }
}

impl IpNetwork {
    /// A network whose prefix is no longer than its address.
    pub open spec fn valid(self) -> bool {
        self.prefix <= self.ip.width()
    }

    /// How many addresses share the prefix.
    pub open spec fn size(self) -> nat {
        pow2((self.ip.width() - self.prefix) as nat)
    }

    /// The network's number among the networks of its prefix length.
    pub open spec fn index(self) -> nat {
        self.ip.bits() / self.size()
    }

    /// Whether the first `prefix` bits of `ip` are those of the network.
    pub open spec fn holds(self, ip: IpAddr) -> bool {
        self.ip.same_family(ip) && ip.bits() / self.size() == self.index()
    }

    /// The network address: that of the network with every host bit zero.
    pub open spec fn network_address(self) -> IpAddr {
        match self.ip {
            IpAddr::V4(_) => IpAddr::V4((self.index() * self.size()) as u32),
            IpAddr::V6(_) => IpAddr::V6((self.index() * self.size()) as u128),
        }
    }

    /// The last address of the network: every host bit is one.
    pub open spec fn last_number(self) -> nat {
        (self.index() * self.size() + self.size() - 1) as nat
    }

    /// Whether `self` comes before `other`: by address, then by prefix length.
    pub open spec fn before(self, other: IpNetwork) -> bool {
        self.ip.before(other.ip) || self.ip == other.ip && self.prefix < other.prefix
    }

    /// The network of an address and a prefix length; `None` if the prefix is longer than
    /// the address.
    pub fn new(ip: IpAddr, prefix: u8) -> (r: Option<IpNetwork>)
        ensures
            r is Some == (prefix <= ip.width()),
            r matches Some(n) ==> n == (IpNetwork { ip, prefix }),
    {
        if prefix <= ip.max_prefix() {
            Some(IpNetwork { ip, prefix })
        } else {
            None
        }
    }

    /// Whether `ip` lies in the network.
    pub fn contains(&self, ip: IpAddr) -> (r: bool)
        requires
            self.valid(),
        ensures
            r == self.holds(ip),
    {
        let same = match (self.ip, ip) {
            (IpAddr::V4(_), IpAddr::V4(_)) => true,
            (IpAddr::V6(_), IpAddr::V6(_)) => true,
            _ => false,
        };
        if !same {
            return false;
        }
        let host_bits: u8 = self.ip.max_prefix() - self.prefix;
        if host_bits == 128 {
            proof {
                lemma_pow2_128();
                lemma_small_quotient(self.ip.bits(), pow2(128));
                lemma_small_quotient(ip.bits(), pow2(128));
            }
            return true;
        }
        proof {
            lemma_u128_shr_is_div(ip.bits() as u128, host_bits as u128);
            lemma_u128_shr_is_div(self.ip.bits() as u128, host_bits as u128);
        }
        ip.number() >> (host_bits as u128) == self.ip.number() >> (host_bits as u128)
    }

    /// The network address.
    pub fn network(&self) -> (r: IpAddr)
        requires
            self.valid(),
        ensures
            r == self.network_address(),
    {
        let host_bits: u8 = self.ip.max_prefix() - self.prefix;
        let number: u128 = self.ip.number();
        let base: u128;
        if host_bits == 128 {
            proof {
                lemma_pow2_128();
                lemma_small_quotient(self.ip.bits(), pow2(128));
                assert(self.index() * self.size() == 0) by (nonlinear_arith)
                    requires
                        self.index() == 0,
                ;
            }
            base = 0;
        } else {
            proof {
                lemma_one_shl(host_bits as u128);
                lemma_pow2_pos(host_bits as nat);
            }
            let size: u128 = 1u128 << (host_bits as u128);
            proof {
                lemma_fundamental_div_mod(number as int, size as int);
                lemma_mod_bound(number as int, size as int);
                vstd::arithmetic::mul::lemma_mul_is_commutative(number as int / size as int, size as int);
            }
            base = number - number % size;
            assert(self.size() == size);
            assert(self.index() * self.size() == base);
        }
        match self.ip {
            IpAddr::V4(_) => IpAddr::V4(base as u32),
            IpAddr::V6(_) => IpAddr::V6(base),
        }
    }

    /// The broadcast address of an IPv4 network; `None` for IPv6.
    pub fn broadcast_v4(&self) -> (r: Option<u32>)
        requires
            self.valid(),
        ensures
            r is Some == self.ip is V4,
            r matches Some(b) ==> b == self.last_number(),
    {
        let base: u32 = match self.network() {
            IpAddr::V4(base) => base,
            IpAddr::V6(_) => return None,
        };
        let host_bits: u8 = 32 - self.prefix;
        proof {
            lemma_one_shl(host_bits as u128);
            lemma_network_fits(self.ip.bits(), self.prefix as nat);
        }
        let size: u128 = 1u128 << (host_bits as u128);
        Some((base as u128 + (size - 1)) as u32)
    }

    /// Whether `self` comes before `other`.
    pub fn is_before(&self, other: &IpNetwork) -> (r: bool)
        ensures
            r == self.before(*other),
    {
        self.ip.is_before(other.ip) || self.ip == other.ip && self.prefix < other.prefix
    }
}

proof fn lemma_small_quotient(x: nat, d: nat)
    requires
        x < d,
    ensures
        x / d == 0,
{
    vstd::arithmetic::div_mod::lemma_basic_div(x as int, d as int);
}

proof fn lemma_pow2_128()
    ensures
        pow2(128) == u128::MAX + 1,
{
    lemma2_to64();
    lemma_pow2_adds(64, 64);
    assert(pow2(64) == 0x1_0000_0000_0000_0000);
    assert(0x1_0000_0000_0000_0000 * 0x1_0000_0000_0000_0000 == u128::MAX + 1) by (nonlinear_arith);
}

proof fn lemma_one_shl(k: u128)
    requires
        k < 128,
    ensures
        1u128 << k == pow2(k as nat),
    decreases k,
{
    if k == 0 {
        assert(1u128 << 0 == 1) by (bit_vector);
        lemma2_to64();
    } else {
        let j = (k - 1) as u128;
        lemma_one_shl(j);
        lemma_pow2_unfold(k as nat);
        assert(1u128 << k == 2 * (1u128 << j)) by (bit_vector)
            requires
                0 < k < 128,
                j == k - 1,
        ;
    }
}

/// The addresses of an IPv4 network are 32-bit numbers.
proof fn lemma_network_fits(bits: nat, prefix: nat)
    requires
        bits <= u32::MAX,
        prefix <= 32,
    ensures
        ({
            let size = pow2((32 - prefix) as nat);
            &&& size > 0
            &&& bits / size * size + size <= 0x1_0000_0000
            &&& bits / size * size <= bits
        }),
{
    let size = pow2((32 - prefix) as nat);
    let count = pow2(prefix);
    lemma2_to64();
    lemma_pow2_pos((32 - prefix) as nat);
    lemma_pow2_adds(prefix, (32 - prefix) as nat);
    lemma_fundamental_div_mod(bits as int, size as int);
    lemma_mod_bound(bits as int, size as int);
    let q = bits / size;
    assert(q * size == size * q) by (nonlinear_arith);
    assert(q < count) by (nonlinear_arith)
        requires
            size * q <= bits,
            bits < count * size,
            size > 0,
    ;
    assert((q + 1) * size <= count * size) by (nonlinear_arith)
        requires
            q + 1 <= count,
            size > 0,
    ;
    assert((q + 1) * size == q * size + size) by (nonlinear_arith);
}

/// Reads an address.
///
/// `str::parse::<std::net::IpAddr>`, with `ipnetwork::IpNetwork` as the carrier that the
/// address is taken apart from. Claimed of it: the result depends on the text alone.
#[verifier::external_body]
pub(crate) fn parse_ip(text: &str) -> (r: Option<IpAddr>)
    ensures
        r == parsed_ip(text@),
{
    match ipnetwork::IpNetwork::new(text.parse().ok()?, 0).ok()? {
        ipnetwork::IpNetwork::V4(n) => Some(IpAddr::V4(n.ip().into())),
        ipnetwork::IpNetwork::V6(n) => Some(IpAddr::V6(n.ip().into())),
    }
}

/// Writes an address.
///
/// `to_string` of `Ipv4Addr` and `Ipv6Addr`, reached through `ipnetwork`. Claimed of it:
/// the text depends on the address alone, reading it gives the address back, and it has at
/// most 45 characters: four decimal octets between dots, or at most eight groups of four
/// hexadecimal digits between colons, of which the last two may be decimal octets. It holds
/// nothing but such digits, dots and colons.
#[verifier::external_body]
pub(crate) fn format_ip(ip: IpAddr) -> (r: String)
    ensures
        r@ == ip_text(ip),
        parsed_ip(r@) == Some(ip),
        r@.len() <= IP_TEXT_LIMIT,
        forall|i: int| 0 <= i < r@.len() ==> is_ip_char(#[trigger] r@[i], ip),
{
    match ip {
        IpAddr::V4(b) => ipnetwork::Ipv4Network::new(b.into(), 32).expect("32 bits").ip().to_string(),
        IpAddr::V6(b) => ipnetwork::Ipv6Network::new(b.into(), 128).expect("128 bits").ip().to_string(),
    }
}

/// Reads a network in CIDR notation.
///
/// `ipnetwork::IpNetwork::from_str`. Claimed of it: the result depends on the text alone,
/// and its prefix is no longer than its address.
#[verifier::external_body]
pub(crate) fn parse_network(text: &str) -> (r: Option<IpNetwork>)
    ensures
        r == parsed_network(text@),
        r matches Some(n) ==> n.valid(),
{
    match ipnetwork::IpNetwork::from_str(text).ok()? {
        ipnetwork::IpNetwork::V4(n) => Some(IpNetwork { ip: IpAddr::V4(n.ip().into()), prefix: n.prefix() }),
        ipnetwork::IpNetwork::V6(n) => Some(IpNetwork { ip: IpAddr::V6(n.ip().into()), prefix: n.prefix() }),
    }
}

/// Whether a character can stand in the text of an address of this family.
pub open spec fn is_ip_char(c: char, ip: IpAddr) -> bool {
    ||| '0' <= c <= '9'
    ||| c == '.'
    ||| ip is V6 && ('a' <= c <= 'f' || c == ':')
}

impl SocketAddr {
    /// What the text of the address tells of it: neither flow information nor, for IPv4, a
    /// scope.
    pub open spec fn written(self) -> SocketAddr {
        SocketAddr {
            flowinfo: 0,
            scope_id: if self.ip is V6 {
                self.scope_id
            } else {
                0
            },
            ..self
        }
    }
}

/// The text of a socket address: the address, a colon and the port; an IPv6 address stands
/// in square brackets, with its scope after a percent sign where it has one.
pub open spec fn socket_text(addr: SocketAddr) -> Seq<char> {
    match addr.ip {
        IpAddr::V4(_) => ip_text(addr.ip) + seq![':'] + decimal(addr.port as nat),
        IpAddr::V6(_) => seq!['['] + (scoped_text(addr) + seq![']'] + (seq![':'] + decimal(addr.port as nat))),
    }
}

/// What stands between the brackets in the text of an IPv6 socket address.
pub open spec fn scoped_text(addr: SocketAddr) -> Seq<char> {
    if addr.scope_id == 0 {
        ip_text(addr.ip)
    } else {
        ip_text(addr.ip) + seq!['%'] + decimal(addr.scope_id as nat)
    }
}

/// The IPv6 address and the scope that stand between the brackets of a socket address.
pub open spec fn parsed_scoped(text: Seq<char>) -> Option<(u128, u32)> {
    match split_first(text, '%') {
        Some((ip, scope)) => match (parsed_ip(ip), decimal_number(scope, u32::MAX)) {
            (Some(IpAddr::V6(bits)), Some(scope_id)) => Some((bits, scope_id)),
            _ => None,
        },
        None => match parsed_ip(text) {
            Some(IpAddr::V6(bits)) => Some((bits, 0)),
            _ => None,
        },
    }
}

/// The socket address that a text stands for, if it is that of one: an IPv4 address, a colon
/// and a port, or, in square brackets, an IPv6 address with or without a percent sign and
/// its scope, and then a colon and a port.
pub open spec fn parsed_socket(text: Seq<char>) -> Option<SocketAddr> {
    if text.len() > 0 && text[0] == '[' {
        match split_first(text.skip(1), ']') {
            Some((inner, rest)) => match (parsed_scoped(inner), decimal_number(rest.skip(1), 0xffff)) {
                (Some((bits, scope_id)), Some(port)) => if rest.len() > 0 && rest[0] == ':' {
                    Some(SocketAddr { ip: IpAddr::V6(bits), port: port as u16, flowinfo: 0, scope_id })
                } else {
                    None
                },
                _ => None,
            },
            None => None,
        }
    } else {
        match split_first(text, ':') {
            Some((ip, port)) => match (parsed_ip(ip), decimal_number(port, 0xffff)) {
                (Some(IpAddr::V4(bits)), Some(port)) => Some(
                    SocketAddr { ip: IpAddr::V4(bits), port: port as u16, flowinfo: 0, scope_id: 0 },
                ),
                _ => None,
            },
            None => None,
        }
    }
}

/// Reads an IPv6 address with or without a scope.
fn parse_scoped(text: &str) -> (r: Option<(u128, u32)>)
    ensures
        r == parsed_scoped(text@),
{
    let (ip, scope_id) = match split_at_first(text, '%') {
        Some((ip, scope)) => (parse_ip(ip)?, parse_decimal(scope, u32::MAX)?),
        None => (parse_ip(text)?, 0u32),
    };
    match ip {
        IpAddr::V6(bits) => Some((bits, scope_id)),
        IpAddr::V4(_) => None,
    }
}

/// Reads a socket address.
pub fn parse_socket_addr(text: &str) -> (r: Option<SocketAddr>)
    ensures
        r == parsed_socket(text@),
{
    let n: usize = text.unicode_len();
    if n > 0 && text.get_char(0) == '[' {
        let tail = text.substring_char(1, n);
        assert(tail@ =~= text@.skip(1));
        let (inner, rest) = split_at_first(tail, ']')?;
        let (bits, scope_id) = parse_scoped(inner)?;
        let m: usize = rest.unicode_len();
        if m == 0 || rest.get_char(0) != ':' {
            return None;
        }
        let digits = rest.substring_char(1, m);
        assert(digits@ =~= rest@.skip(1));
        let port: u32 = parse_decimal(digits, 0xffff)?;
        Some(SocketAddr { ip: IpAddr::V6(bits), port: port as u16, flowinfo: 0, scope_id })
    } else {
        let (ip, port) = split_at_first(text, ':')?;
        let ip = parse_ip(ip)?;
        let port: u32 = parse_decimal(port, 0xffff)?;
        match ip {
            IpAddr::V4(bits) => Some(SocketAddr { ip: IpAddr::V4(bits), port: port as u16, flowinfo: 0, scope_id: 0 }),
            IpAddr::V6(_) => None,
        }
    }
}

/// Decimal digits are no punctuation.
proof fn lemma_no_punctuation(digits: Seq<char>)
    requires
        decimal_value(digits) is Some,
    ensures
        !digits.contains(']'),
        !digits.contains('%'),
    decreases digits.len(),
{
    if digits.len() > 0 {
        let front = digits.drop_last();
        lemma_no_punctuation(front);
        assert forall|c: char| c == ']' || c == '%' implies !digits.contains(c) by {
            if digits.contains(c) {
                let i = choose|i: int| 0 <= i < digits.len() && digits[i] == c;
                assert(decimal_digit(digits.last()) is Some);
                assert(front[i] == c);
                assert(front.contains(c));
            }
        }
    }
}

/// A socket address is read back from its text, as far as the text tells of it.
proof fn lemma_socket_text_reads_back(addr: SocketAddr)
    requires
        parsed_ip(ip_text(addr.ip)) == Some(addr.ip),
        forall|i: int| 0 <= i < ip_text(addr.ip).len() ==> is_ip_char(#[trigger] ip_text(addr.ip)[i], addr.ip),
    ensures
        parsed_socket(socket_text(addr)) == Some(addr.written()),
{
    let ip = ip_text(addr.ip);
    let port = decimal(addr.port as nat);
    let text = socket_text(addr);
    law_decimal_is_read_back(addr.port as nat);
    assert(!ip.contains(']') && !ip.contains('%') && !ip.contains('['));
    match addr.ip {
        IpAddr::V4(_) => {
            assert(!ip.contains(':'));
            lemma_split_first(ip, ':', port);
            if ip.len() > 0 {
                assert(text[0] == ip[0]);
            }
        },
        IpAddr::V6(_) => {
            let scope = decimal(addr.scope_id as nat);
            let inner = scoped_text(addr);
            law_decimal_is_read_back(addr.scope_id as nat);
            lemma_no_punctuation(scope);
            if addr.scope_id == 0 {
                ip.index_of_first_ensures('%');
            } else {
                lemma_split_first(ip, '%', scope);
                if inner.contains(']') {
                    let i = choose|i: int| 0 <= i < inner.len() && inner[i] == ']';
                    if i < ip.len() {
                        assert(ip.contains(ip[i]));
                    } else if i > ip.len() {
                        assert(scope.contains(scope[i - ip.len() - 1]));
                    }
                }
            }
            let rest = seq![':'] + port;
            assert(text.skip(1) =~= inner + seq![']'] + rest);
            lemma_split_first(inner, ']', rest);
            assert(rest.skip(1) =~= port);
        },
    }
}

/// The text of a socket address.
pub fn format_socket_addr(addr: SocketAddr) -> (r: String)
    ensures
        r@ == socket_text(addr),
        r@.len() <= SOCKET_TEXT_LIMIT,
        parsed_socket(r@) == Some(addr.written()),
{
    let ip = format_ip(addr.ip);
    proof {
        lemma_socket_text_reads_back(addr);
        lemma_decimal_len(addr.port as u32);
        lemma_decimal_len(addr.scope_id);
        reveal_strlit(":");
        reveal_strlit("[");
        reveal_strlit("%");
        reveal_strlit("]:");
    }
    let mut out = String::new();
    match addr.ip {
        IpAddr::V4(_) => {
            out.append(ip.as_str());
            out.append(":");
            put_decimal(&mut out, addr.port as u32);
        },
        IpAddr::V6(_) => {
            out.append("[");
            out.append(ip.as_str());
            if addr.scope_id != 0 {
                out.append("%");
                put_decimal(&mut out, addr.scope_id);
            }
            out.append("]:");
            put_decimal(&mut out, addr.port as u32);
        },
    }
    assert(out@ =~= socket_text(addr));
    out
}

/// An IPv4 address lies in an IPv4 network if and only if its first bits, as many as the
/// prefix is long, are those of the network's address.
pub proof fn law_network_goes_by_its_first_bits(net: IpNetwork, a: u32, b: u32)
    requires
        net.valid(),
        net.ip == IpAddr::V4(a),
    ensures
        net.holds(IpAddr::V4(b)) <==> net.prefix == 0 || (a ^ b) >> ((32 - net.prefix) as u32) == 0,
{
    lemma2_to64();
    if net.prefix == 0 {
        lemma_small_quotient(a as nat, net.size());
        lemma_small_quotient(b as nat, net.size());
    } else {
        let k = (32 - net.prefix) as u32;
        vstd::bits::lemma_u32_shr_is_div(a, k);
        vstd::bits::lemma_u32_shr_is_div(b, k);
        assert(a >> k == b >> k <==> (a ^ b) >> k == 0) by (bit_vector)
            requires
                k < 32,
        ;
    }
}

/// A network is a range of addresses: from its network address to its last one, both of them
/// included.
pub proof fn law_network_is_a_range(net: IpNetwork, ip: IpAddr)
    requires
        net.valid(),
    ensures
        net.holds(net.ip),
        net.holds(net.network_address()),
        net.holds(ip) <==> net.ip.same_family(ip) && net.network_address().bits() <= ip.bits() <= net.last_number(),
        net.last_number() - net.network_address().bits() + 1 == pow2((net.ip.width() - net.prefix) as nat),
        net.last_number() < pow2(net.ip.width()),
{
    let size = net.size() as int;
    let w = net.ip.width();
    let q = net.index() as int;
    let bits = net.ip.bits() as int;
    lemma2_to64();
    lemma_pow2_128();
    lemma_pow2_pos((w - net.prefix) as nat);
    lemma_pow2_adds(net.prefix as nat, (w - net.prefix) as nat);
    lemma_fundamental_div_mod(bits, size);
    lemma_mod_bound(bits, size);
    lemma_fundamental_div_mod(ip.bits() as int, size);
    lemma_mod_bound(ip.bits() as int, size);
    let p = ip.bits() as int / size;
    let count = pow2(net.prefix as nat) as int;
    assert(q * size == size * q) by (nonlinear_arith);
    assert(p * size == size * p) by (nonlinear_arith);
    assert(0 <= q < count) by (nonlinear_arith)
        requires
            0 <= bits < count * size,
            bits == size * q + bits % size,
            0 <= bits % size < size,
            size > 0,
    ;
    assert((q + 1) * size <= count * size) by (nonlinear_arith)
        requires
            q + 1 <= count,
            size > 0,
    ;
    assert((q + 1) * size == q * size + size) by (nonlinear_arith);
    assert(0 <= q * size) by (nonlinear_arith)
        requires
            0 <= q,
            size > 0,
    ;
    assert((q * size) / size == q) by {
        vstd::arithmetic::div_mod::lemma_div_multiples_vanish(q, size);
    }
    if p < q {
        assert(p * size + size <= q * size) by (nonlinear_arith)
            requires
                p + 1 <= q,
                size > 0,
        ;
    } else if p > q {
        assert(q * size + size <= p * size) by (nonlinear_arith)
            requires
                q + 1 <= p,
                size > 0,
        ;
    }
    assert(net.network_address().bits() == q * size);
}

/// One network lies inside another if and only if it starts there and has a prefix that is
/// no shorter.
pub proof fn law_inner_network(outer: IpNetwork, inner: IpNetwork)
    requires
        outer.valid(),
        inner.valid(),
    ensures
        (forall|ip: IpAddr| inner.holds(ip) ==> #[trigger] outer.holds(ip)) <==> outer.holds(inner.ip) && outer.prefix
            <= inner.prefix,
{
    law_network_is_a_range(inner, inner.ip);
    if outer.holds(inner.ip) && outer.prefix <= inner.prefix {
        assert forall|ip: IpAddr| inner.holds(ip) implies #[trigger] outer.holds(ip) by {
            crate::route::lemma_inner_network(outer, inner, ip);
        }
    }
    if forall|ip: IpAddr| inner.holds(ip) ==> #[trigger] outer.holds(ip) {
        assert(outer.holds(inner.ip));
        let first = inner.network_address();
        let last = match inner.ip {
            IpAddr::V4(_) => IpAddr::V4(inner.last_number() as u32),
            IpAddr::V6(_) => IpAddr::V6(inner.last_number() as u128),
        };
        lemma2_to64();
        lemma_pow2_128();
        law_network_is_a_range(inner, first);
        law_network_is_a_range(inner, last);
        assert(last.bits() == inner.last_number());
        assert(outer.holds(first) && outer.holds(last));
        law_network_is_a_range(outer, first);
        law_network_is_a_range(outer, last);
        let w = outer.ip.width();
        if outer.prefix > inner.prefix {
            vstd::arithmetic::power2::lemma_pow2_strictly_increases(
                (w - outer.prefix) as nat,
                (w - inner.prefix) as nat,
            );
        }
    }
}

/// The special addresses by their first octets or bits: 224 to 239 and `ff` are multicast;
/// 169.254 and the first ten bits of `fe80` are link-local.
pub proof fn law_special_addresses(a: u32, b: u128)
    ensures
        IpAddr::V4(a).multicast() <==> 224 <= a / 0x100_0000 <= 239,
        IpAddr::V4(a).link_local() <==> a / 0x100_0000 == 169 && (a / 0x1_0000) % 0x100 == 254,
        IpAddr::V6(b).multicast() <==> b >> 120 == 0xff,
        IpAddr::V6(b).link_local() <==> b >> 118 == 0x3fa,
{
    assert(0xe000_0000 <= a && a < 0xf000_0000 <==> 224 <= a / 0x100_0000 && a / 0x100_0000 <= 239) by (bit_vector);
    assert(0xa9fe_0000 <= a && a <= 0xa9fe_ffff <==> a / 0x100_0000 == 169 && (a / 0x1_0000) % 0x100 == 254) by (
        bit_vector);
    assert(0xff00_0000_0000_0000_0000_0000_0000_0000 <= b <==> b >> 120 == 0xff) by (bit_vector);
    assert(0xfe80_0000_0000_0000_0000_0000_0000_0000 <= b && b < 0xfec0_0000_0000_0000_0000_0000_0000_0000 <==> b
        >> 118 == 0x3fa) by (bit_vector);
}

/// Networks are in a strict order: of two different ones exactly one comes first, IPv4 before
/// IPv6, the lower address before the higher, and the wider network before the narrower one
/// at the same address.
pub proof fn law_networks_are_ordered(a: IpNetwork, b: IpNetwork, c: IpNetwork)
    ensures
        !a.before(a),
        a != b ==> a.before(b) != b.before(a),
        a.before(b) && b.before(c) ==> a.before(c),
        a.ip is V4 && b.ip is V6 ==> a.before(b),
        a.ip.same_family(b.ip) && a.ip.bits() < b.ip.bits() ==> a.before(b),
        a.ip == b.ip && a.prefix < b.prefix ==> a.before(b),
{
}

/// The text of a socket address is read back as the same address and port, and for IPv6 the
/// same scope. The address's own text must be read back, and have no other characters than
/// digits, dots and, for IPv6, colons and the letters from `a` to `f`.
pub proof fn law_socket_address_is_read_back(addr: SocketAddr)
    requires
        parsed_ip(ip_text(addr.ip)) == Some(addr.ip),
        forall|i: int| 0 <= i < ip_text(addr.ip).len() ==> is_ip_char(#[trigger] ip_text(addr.ip)[i], addr.ip),
    ensures
        parsed_socket(socket_text(addr)) is Some,
        ({
            let read = parsed_socket(socket_text(addr))->0;
            &&& read.ip == addr.ip
            &&& read.port == addr.port
            &&& addr.ip is V6 ==> read.scope_id == addr.scope_id
        }),
{
    lemma_socket_text_reads_back(addr);
}

/// A text stands for an IPv4 socket address only if it is that address, a colon and a port of
/// at most 65,535 in decimal, and for an IPv6 socket address only if it is that address in
/// square brackets, with or without a percent sign and a scope, a colon and such a port.
pub proof fn law_socket_addresses_have_their_form(text: Seq<char>)
    requires
        parsed_socket(text) is Some,
    ensures
        ({
            let addr = parsed_socket(text)->0;
            match addr.ip {
                IpAddr::V4(_) => exists|ip: Seq<char>, port: Seq<char>|
                    {
                        &&& text == #[trigger] joined_by(ip, ':', port)
                        &&& parsed_ip(ip) == Some(addr.ip)
                        &&& decimal_number(port, 65_535) == Some(addr.port as u32)
                    },
                IpAddr::V6(_) => exists|inner: Seq<char>, port: Seq<char>|
                    {
                        &&& text == #[trigger] bracketed(inner, port)
                        &&& is_scoped(inner, addr.ip, addr.scope_id)
                        &&& decimal_number(port, 65_535) == Some(addr.port as u32)
                    },
            }
        }),
{
    let addr = parsed_socket(text)->0;
    if text.len() > 0 && text[0] == '[' {
        let tail = text.skip(1);
        let (inner, rest) = split_first(tail, ']')->0;
        let port = rest.skip(1);
        lemma_split_parts(tail, ']');
        assert(rest =~= seq![':'] + port);
        assert(text =~= seq!['['] + tail);
        assert(tail =~= inner + seq![']'] + (seq![':'] + port));
        assert(text =~= bracketed(inner, port));
        if split_first(inner, '%') is Some {
            lemma_split_parts(inner, '%');
            let (ip, scope) = split_first(inner, '%')->0;
            assert(inner == joined_by(ip, '%', scope));
        }
        assert(is_scoped(inner, addr.ip, addr.scope_id));
    } else {
        lemma_split_parts(text, ':');
        let (ip, port) = split_first(text, ':')->0;
        assert(text == joined_by(ip, ':', port));
    }
}

/// Two texts with a character between them.
pub open spec fn joined_by(before: Seq<char>, c: char, after: Seq<char>) -> Seq<char> {
    before + seq![c] + after
}

/// A text in square brackets, a colon and a port.
pub open spec fn bracketed(inner: Seq<char>, port: Seq<char>) -> Seq<char> {
    seq!['['] + inner + seq![']'] + seq![':'] + port
}

/// Whether a text is an address alone, and the scope is zero, or an address, a percent sign and
/// the scope in decimal.
pub open spec fn is_scoped(text: Seq<char>, ip: IpAddr, scope_id: u32) -> bool {
    ||| parsed_ip(text) == Some(ip) && scope_id == 0
    ||| exists|before: Seq<char>, scope: Seq<char>|
        {
            &&& text == #[trigger] joined_by(before, '%', scope)
            &&& parsed_ip(before) == Some(ip)
            &&& decimal_number(scope, u32::MAX) == Some(scope_id)
        }
}

/// A text is what stands before and after the character at which it is split.
proof fn lemma_split_parts(text: Seq<char>, c: char)
    requires
        split_first(text, c) is Some,
    ensures
        text == (split_first(text, c)->0).0 + seq![c] + (split_first(text, c)->0).1,
{
    text.index_of_first_ensures(c);
    let i = text.index_of_first(c)->0;
    assert(text =~= text.take(i) + seq![c] + text.skip(i + 1));
}

} // verus!
