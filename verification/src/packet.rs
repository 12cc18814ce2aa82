//! The packets of an established session, and the masked header that every packet of a
//! network starts with.
pub mod format;

use crate::addr::{
    format_ip, format_socket_addr, ip_text, parse_ip, parse_socket_addr, parsed_ip, parsed_socket, socket_text, IpAddr,
    SocketAddr,
};
use crate::bytes::{
    array_from, be32, be64, field, from_be32, from_be64, lemma_be32, lemma_be64, lemma_field, lemma_from_be32, put_slice, put_u32,
    put_u64, put_vec_u32, read_field, to_vec, Reader,
};
use crate::cert::Cert;
use crate::crypto::aead::{aead_opened, aead_sealed, decrypt, encrypt, PLAINTEXT_LIMIT};
use crate::crypto::kdf::{blake3_derived, blake3_keyed, blake3_keyed_hash, derive_labeled_key};
use crate::crypto::random::{random_array, random_bytes};
use crate::crypto::{wipe, AEAD_TAG_LEN, K_HEADER_LEN, NONCE_LEN, SESSION_KEY_LEN};
use crate::text::{lemma_utf8_len, read_text, text_from_utf8};
use vstd::prelude::*;
use vstd::utf8::{encode_utf8, encode_utf8_decode_utf8, encode_utf8_valid_utf8};

verus! {

pub const MASK_NONCE_LEN: usize = 8;

pub const NETWORK_HEADER_LEN: usize = 16;

/// The associated data of a packet: its mask nonce and its masked header.
pub const AAD_LEN: usize = MASK_NONCE_LEN + NETWORK_HEADER_LEN;

pub const PACKET_OVERHEAD: usize = MASK_NONCE_LEN + NETWORK_HEADER_LEN + NONCE_LEN + AEAD_TAG_LEN;

pub const MIN_PACKET_LEN: usize = PACKET_OVERHEAD;

pub const KIND_DATA: u8 = 0x21;

pub const KIND_RELAY_FORWARD: u8 = 0x22;

pub const KIND_DISCONNECT: u8 = 0x23;

pub const KIND_LIGHTHOUSE_QUERY: u8 = 0x24;

pub const KIND_LIGHTHOUSE_RESPONSE: u8 = 0x25;

pub const KIND_LIGHTHOUSE_NOT_FOUND: u8 = 0x26;

pub const KIND_KEEPALIVE: u8 = 0x27;

pub const KIND_KEEPALIVE_ACK: u8 = 0x28;

pub const KIND_HANDSHAKE_1: u8 = 0x11;

pub const KIND_HANDSHAKE_2: u8 = 0x12;

pub const KIND_HANDSHAKE_FRAG: u8 = 0x13;

/// Padding is shorter than this.
pub const PADDING_LIMIT: usize = 32;

/// A packet as it goes over the wire.
#[derive(Debug, Clone, PartialEq, Eq)]
pub struct DataPacket {
    pub mask_nonce: [u8; MASK_NONCE_LEN],
    pub masked_header: [u8; NETWORK_HEADER_LEN],
    pub nonce: [u8; NONCE_LEN],
    pub ciphertext: Vec<u8>,
}

/// The dispatch metadata of a packet. Only the holders of the network key can read it.
#[derive(Debug, Clone, Copy, PartialEq, Eq, Structural)]
pub struct NetworkHeader {
    pub kind: u8,
    pub frag_index: u8,
    pub frag_total: u8,
    pub dst_peer_id: u32,
    pub session_id: u32,
}

/// What a packet of a session says. The certificate in a lighthouse's response stays in its
/// encoded form, JSON.
#[derive(Debug, Clone, PartialEq, Eq)]
pub enum PacketBody {
    Data { seq: u64, ip_packet: Vec<u8> },
    RelayForward { seq: u64, next_peer_id: u32, inner_packet: Vec<u8> },
    Disconnect { seq: u64 },
    LighthouseQuery { seq: u64, target_ip: IpAddr },
    LighthouseResponse {
        seq: u64,
        target_ip: IpAddr,
        peer_id: u32,
        peer_addr: SocketAddr,
        peer_cert: Vec<u8>,
        peer_is_relay: bool,
    },
    LighthouseNotFound { seq: u64, target_ip: IpAddr },
    Keepalive { seq: u64, token: u64 },
    KeepaliveAck { seq: u64, token: u64 },
}

/// The mathematical value of a `PacketBody`.
pub enum Body {
    Data { seq: u64, ip_packet: Seq<u8> },
    RelayForward { seq: u64, next_peer_id: u32, inner_packet: Seq<u8> },
    Disconnect { seq: u64 },
    LighthouseQuery { seq: u64, target_ip: IpAddr },
    LighthouseResponse {
        seq: u64,
        target_ip: IpAddr,
        peer_id: u32,
        peer_addr: SocketAddr,
        peer_cert: Seq<u8>,
        peer_is_relay: bool,
    },
    LighthouseNotFound { seq: u64, target_ip: IpAddr },
    Keepalive { seq: u64, token: u64 },
    KeepaliveAck { seq: u64, token: u64 },
}

impl View for PacketBody {
    type V = Body;

    open spec fn view(&self) -> Body {
        match *self {
            PacketBody::Data { seq, ip_packet } => Body::Data { seq, ip_packet: ip_packet@ },
            PacketBody::RelayForward { seq, next_peer_id, inner_packet } => Body::RelayForward {
                seq,
                next_peer_id,
                inner_packet: inner_packet@,
            },
            PacketBody::Disconnect { seq } => Body::Disconnect { seq },
            PacketBody::LighthouseQuery { seq, target_ip } => Body::LighthouseQuery { seq, target_ip },
            PacketBody::LighthouseResponse { seq, target_ip, peer_id, peer_addr, peer_cert, peer_is_relay } =>
            Body::LighthouseResponse {
                seq,
                target_ip,
                peer_id,
                peer_addr,
                peer_cert: peer_cert@,
                peer_is_relay,
            },
            PacketBody::LighthouseNotFound { seq, target_ip } => Body::LighthouseNotFound { seq, target_ip },
            PacketBody::Keepalive { seq, token } => Body::Keepalive { seq, token },
            PacketBody::KeepaliveAck { seq, token } => Body::KeepaliveAck { seq, token },
        }
    }
}

impl Body {
    /// The kind byte of a body.
    pub open spec fn kind(self) -> u8 {
        match self {
            Body::Data { .. } => KIND_DATA,
            Body::RelayForward { .. } => KIND_RELAY_FORWARD,
            Body::Disconnect { .. } => KIND_DISCONNECT,
            Body::LighthouseQuery { .. } => KIND_LIGHTHOUSE_QUERY,
            Body::LighthouseResponse { .. } => KIND_LIGHTHOUSE_RESPONSE,
            Body::LighthouseNotFound { .. } => KIND_LIGHTHOUSE_NOT_FOUND,
            Body::Keepalive { .. } => KIND_KEEPALIVE,
            Body::KeepaliveAck { .. } => KIND_KEEPALIVE_ACK,
        }
    }

    /// The sequence number of a body.
    pub open spec fn seq(self) -> u64 {
        match self {
            Body::Data { seq, .. } => seq,
            Body::RelayForward { seq, .. } => seq,
            Body::Disconnect { seq } => seq,
            Body::LighthouseQuery { seq, .. } => seq,
            Body::LighthouseResponse { seq, .. } => seq,
            Body::LighthouseNotFound { seq, .. } => seq,
            Body::Keepalive { seq, .. } => seq,
            Body::KeepaliveAck { seq, .. } => seq,
        }
    }

    /// What follows the kind byte and the sequence number in the encoding.
    pub open spec fn content(self) -> Seq<u8> {
        match self {
            Body::Data { ip_packet, .. } => field(ip_packet),
            Body::RelayForward { next_peer_id, inner_packet, .. } => be32(next_peer_id) + field(inner_packet),
            Body::Disconnect { .. } => Seq::empty(),
            Body::LighthouseQuery { target_ip, .. } => field(encode_utf8(ip_text(target_ip))),
            Body::LighthouseResponse { target_ip, peer_id, peer_addr, peer_cert, peer_is_relay, .. } => field(
                encode_utf8(ip_text(target_ip)),
            ) + (be32(peer_id) + (field(encode_utf8(socket_text(peer_addr))) + (field(peer_cert) + seq![
                if peer_is_relay {
                    1u8
                } else {
                    0u8
                },
            ]))),
            Body::LighthouseNotFound { target_ip, .. } => field(encode_utf8(ip_text(target_ip))),
            Body::Keepalive { token, .. } => be64(token),
            Body::KeepaliveAck { token, .. } => be64(token),
        }
    }

    /// The plaintext that carries a body, without padding.
    pub open spec fn bytes(self) -> Seq<u8> {
        seq![self.kind()] + (be64(self.seq()) + self.content())
    }

    /// Whether the body, with any padding, is short enough to be encrypted.
    pub open spec fn sealable(self) -> bool {
        self.bytes().len() + PADDING_LIMIT <= PLAINTEXT_LIMIT
    }

    /// Whether every length-prefixed field of the body is short enough for its prefix and
    /// every address in it is read back from its text.
    pub open spec fn fits(self) -> bool {
        match self {
            Body::Data { ip_packet, .. } => ip_packet.len() <= u32::MAX,
            Body::RelayForward { inner_packet, .. } => inner_packet.len() <= u32::MAX,
            Body::LighthouseQuery { target_ip, .. } => fits_text(target_ip),
            Body::LighthouseResponse { target_ip, peer_addr, peer_cert, .. } => {
                &&& fits_text(target_ip)
                &&& encode_utf8(socket_text(peer_addr)).len() <= u32::MAX
                &&& parsed_socket(socket_text(peer_addr)) == Some(peer_addr)
                &&& peer_cert.len() <= u32::MAX
            },
            Body::LighthouseNotFound { target_ip, .. } => fits_text(target_ip),
            _ => true,
        }
    }
}

/// Whether an address has a text that fits a length prefix and is read back from it.
pub open spec fn fits_text(ip: IpAddr) -> bool {
    encode_utf8(ip_text(ip)).len() <= u32::MAX && parsed_ip(ip_text(ip)) == Some(ip)
}

/// The address whose text the field at the start of `s` holds, and what follows.
pub open spec fn read_ip(s: Seq<u8>) -> Option<(IpAddr, Seq<u8>)> {
    match read_field(s) {
        Some((bytes, rest)) => match read_text(bytes) {
            Some(text) => match parsed_ip(text) {
                Some(ip) => Some((ip, rest)),
                None => None,
            },
            None => None,
        },
        None => None,
    }
}

/// The body that a plaintext carries. What follows the body is padding and ignored.
pub open spec fn read_body(p: Seq<u8>) -> Option<Body> {
    if p.len() < 9 {
        None
    } else {
        read_content(p[0], from_be64(p.skip(1)), p.skip(9))
    }
}

/// The body of the given kind and sequence number whose content starts `s`.
pub open spec fn read_content(kind: u8, seq: u64, s: Seq<u8>) -> Option<Body> {
    if kind == KIND_DATA {
        match read_field(s) {
            Some((ip_packet, _)) => Some(Body::Data { seq, ip_packet }),
            None => None,
        }
    } else if kind == KIND_RELAY_FORWARD {
        if s.len() < 4 {
            None
        } else {
            match read_field(s.skip(4)) {
                Some((inner_packet, _)) => Some(Body::RelayForward { seq, next_peer_id: from_be32(s), inner_packet }),
                None => None,
            }
        }
    } else if kind == KIND_DISCONNECT {
        Some(Body::Disconnect { seq })
    } else if kind == KIND_LIGHTHOUSE_QUERY {
        match read_ip(s) {
            Some((target_ip, _)) => Some(Body::LighthouseQuery { seq, target_ip }),
            None => None,
        }
    } else if kind == KIND_LIGHTHOUSE_RESPONSE {
        read_response(seq, s)
    } else if kind == KIND_LIGHTHOUSE_NOT_FOUND {
        match read_ip(s) {
            Some((target_ip, _)) => Some(Body::LighthouseNotFound { seq, target_ip }),
            None => None,
        }
    } else if kind == KIND_KEEPALIVE {
        if s.len() < 8 {
            None
        } else {
            Some(Body::Keepalive { seq, token: from_be64(s) })
        }
    } else if kind == KIND_KEEPALIVE_ACK {
        if s.len() < 8 {
            None
        } else {
            Some(Body::KeepaliveAck { seq, token: from_be64(s) })
        }
    } else {
        None
    }
}

/// The socket address whose text some bytes hold.
pub open spec fn read_socket(bytes: Seq<u8>) -> Option<SocketAddr> {
    match read_text(bytes) {
        Some(text) => parsed_socket(text),
        None => None,
    }
}

/// The lighthouse's response whose content starts `s`.
pub open spec fn read_response(seq: u64, s: Seq<u8>) -> Option<Body> {
    match read_ip(s) {
        Some((target_ip, s1)) => if s1.len() < 4 {
            None
        } else {
            match read_field(s1.skip(4)) {
                Some((addr, s2)) => match (read_socket(addr), read_field(s2)) {
                    (Some(peer_addr), Some((peer_cert, s3))) => if s3.len() < 1 {
                        None
                    } else {
                        Some(
                            Body::LighthouseResponse {
                                seq,
                                target_ip,
                                peer_id: from_be32(s1),
                                peer_addr,
                                peer_cert,
                                peer_is_relay: s3[0] != 0,
                            },
                        )
                    },
                    _ => None,
                },
                None => None,
            }
        },
        None => None,
    }
}

/// Whether a packet can be of this kind.
pub open spec fn known_kind(kind: u8) -> bool {
    ||| kind == KIND_DATA
    ||| kind == KIND_RELAY_FORWARD
    ||| kind == KIND_DISCONNECT
    ||| kind == KIND_LIGHTHOUSE_QUERY
    ||| kind == KIND_LIGHTHOUSE_RESPONSE
    ||| kind == KIND_LIGHTHOUSE_NOT_FOUND
    ||| kind == KIND_KEEPALIVE
    ||| kind == KIND_KEEPALIVE_ACK
    ||| kind == KIND_HANDSHAKE_1
    ||| kind == KIND_HANDSHAKE_2
    ||| kind == KIND_HANDSHAKE_FRAG
}

impl NetworkHeader {
    /// The header in its sixteen bytes, of which five are reserved and zero.
    pub open spec fn bytes(self) -> Seq<u8> {
        seq![self.kind, self.frag_index, self.frag_total, 0u8] + be32(self.dst_peer_id) + be32(self.session_id) + seq![
            0u8,
            0u8,
            0u8,
            0u8,
        ]
    }
}

/// The header that sixteen bytes hold: the reserved bytes are zero and the kind is known.
pub open spec fn read_header(b: Seq<u8>) -> Option<NetworkHeader> {
    if b[3] == 0 && b[12] == 0 && b[13] == 0 && b[14] == 0 && b[15] == 0 && known_kind(b[0]) {
        Some(
            NetworkHeader {
                kind: b[0],
                frag_index: b[1],
                frag_total: b[2],
                dst_peer_id: from_be32(b.skip(4)),
                session_id: from_be32(b.skip(8)),
            },
        )
    } else {
        None
    }
}

/// The mask of a header: what the network key gives for the mask nonce.
pub open spec fn header_mask(mask_nonce: Seq<u8>, network_key: Seq<u8>) -> Seq<u8> {
    blake3_keyed(blake3_derived("liteway-network-header-mask-v1"@, network_key), mask_nonce)
}

/// Sixteen bytes, each combined with the byte of the mask at its place.
pub open spec fn masked(bytes: Seq<u8>, mask: Seq<u8>) -> Seq<u8> {
    Seq::new(NETWORK_HEADER_LEN as nat, |i: int| bytes[i] ^ mask[i])
}

/// The header that a masked header stands for.
pub open spec fn unmasked_header(masked_header: Seq<u8>, mask_nonce: Seq<u8>, network_key: Seq<u8>) -> Option<NetworkHeader> {
    read_header(masked(masked_header, header_mask(mask_nonce, network_key)))
}

/// The key that the packets of a session are encrypted with.
pub open spec fn packet_key_of(session_key: Seq<u8>) -> Seq<u8> {
    blake3_derived("liteway-packet-key-v2"@, session_key)
}

impl DataPacket {
    /// The packet as it goes over the wire.
    pub open spec fn wire(self) -> Seq<u8> {
        self.mask_nonce@ + self.masked_header@ + self.nonce@ + self.ciphertext@
    }

    /// What the tag of the packet authenticates besides the plaintext.
    pub open spec fn aad(self) -> Seq<u8> {
        self.mask_nonce@ + self.masked_header@
    }

    /// Whether the packet is `plaintext`, encrypted with `key`, under `header`: anyone
    /// who holds the keys reads the header and opens the ciphertext.
    pub open spec fn seals(self, header: NetworkHeader, plaintext: Seq<u8>, network_key: Seq<u8>, key: Seq<u8>) -> bool {
        &&& self.masked_header@ == masked(header.bytes(), header_mask(self.mask_nonce@, network_key))
        &&& self.ciphertext@ == aead_sealed(key, self.nonce@, plaintext, self.aad())
        &&& plaintext.len() < PLAINTEXT_LIMIT
        &&& self.ciphertext@.len() == plaintext.len() + AEAD_TAG_LEN
        &&& aead_opened(key, self.nonce@, self.ciphertext@, self.aad()) == Some(plaintext)
    }

    /// Whether the packet carries `body`, with some padding, to a session of a peer.
    pub open spec fn carries(
        self,
        body: Body,
        dst_peer_id: u32,
        session_id: u32,
        network_key: Seq<u8>,
        session_key: Seq<u8>,
    ) -> bool {
        exists|padding: Seq<u8>|
            {
                &&& padding.len() < PADDING_LIMIT
                &&& self.seals(
                    session_header(body.kind(), dst_peer_id, session_id),
                    #[trigger] (body.bytes() + padding),
                    network_key,
                    packet_key_of(session_key),
                )
            }
    }

    /// Whether decrypting the packet on the wire gives the header of the session and `body`,
    /// with nothing of the padding.
    pub open spec fn reads_back(
        self,
        body: Body,
        dst_peer_id: u32,
        session_id: u32,
        network_key: Seq<u8>,
        session_key: Seq<u8>,
    ) -> bool {
        decrypted(self.wire(), network_key, session_key) == Some(
            (session_header(body.kind(), dst_peer_id, session_id), body),
        )
    }
}

/// The header of a packet of a session.
pub open spec fn session_header(kind: u8, dst_peer_id: u32, session_id: u32) -> NetworkHeader {
    NetworkHeader { kind, frag_index: 0, frag_total: 0, dst_peer_id, session_id }
}

/// The parts of a packet on the wire.
pub open spec fn wire_mask_nonce(data: Seq<u8>) -> Seq<u8> {
    data.subrange(0, 8)
}

pub open spec fn wire_masked_header(data: Seq<u8>) -> Seq<u8> {
    data.subrange(8, 24)
}

pub open spec fn wire_nonce(data: Seq<u8>) -> Seq<u8> {
    data.subrange(24, 36)
}

pub open spec fn wire_ciphertext(data: Seq<u8>) -> Seq<u8> {
    data.skip(36)
}

/// The header of a packet on the wire.
pub open spec fn wire_header(data: Seq<u8>, network_key: Seq<u8>) -> Option<NetworkHeader> {
    if data.len() < MIN_PACKET_LEN {
        None
    } else {
        unmasked_header(wire_masked_header(data), wire_mask_nonce(data), network_key)
    }
}

/// What a packet on the wire opens to under `key`, with its header authenticated. Nothing
/// longer than what can be encrypted opens.
pub open spec fn wire_opened(data: Seq<u8>, key: Seq<u8>) -> Option<Seq<u8>> {
    if data.len() >= PLAINTEXT_LIMIT + PACKET_OVERHEAD {
        None
    } else {
        aead_opened(key, wire_nonce(data), wire_ciphertext(data), data.take(24))
    }
}

/// Whether the ciphertext of a packet on the wire is, byte for byte, what its plaintext
/// encrypts to under `key`, the packet's nonce, and the packet's own masked header.
pub open spec fn authentic(data: Seq<u8>, key: Seq<u8>) -> bool {
    match wire_opened(data, key) {
        Some(plaintext) => wire_ciphertext(data) == aead_sealed(key, wire_nonce(data), plaintext, data.take(24)),
        None => false,
    }
}

/// The header and the body of a packet on the wire.
pub open spec fn decrypted(data: Seq<u8>, network_key: Seq<u8>, session_key: Seq<u8>) -> Option<(NetworkHeader, Body)> {
    match (wire_header(data, network_key), wire_opened(data, packet_key_of(session_key))) {
        (Some(header), Some(plaintext)) => match read_body(plaintext) {
            Some(body) => if body.kind() == header.kind {
                Some((header, body))
            } else {
                None
            },
            None => None,
        },
        _ => None,
    }
}

/// The key for what `src_id` sends to `dst_id` in a session.
pub open spec fn traffic_key_of(session_key: Seq<u8>, src_id: u32, dst_id: u32) -> Seq<u8> {
    blake3_derived("liteway-traffic-key-v2"@, session_key + be32(src_id) + be32(dst_id))
}

/// Masks or unmasks sixteen bytes.
fn mask_bytes(
    bytes: &[u8; NETWORK_HEADER_LEN],
    mask_nonce: &[u8; MASK_NONCE_LEN],
    network_key: &[u8; K_HEADER_LEN],
) -> (r: [u8; NETWORK_HEADER_LEN])
    ensures
        r@ == masked(bytes@, header_mask(mask_nonce@, network_key@)),
{
    let mask_key = derive_labeled_key("liteway-network-header-mask-v1", network_key);
    let mask = blake3_keyed_hash(&mask_key, mask_nonce);
    let mut out = [0u8; NETWORK_HEADER_LEN];
    let mut i: usize = 0;
    while i < NETWORK_HEADER_LEN
        invariant
            i <= NETWORK_HEADER_LEN,
            forall|j: int| 0 <= j < i ==> out@[j] == bytes@[j] ^ mask@[j],
        decreases NETWORK_HEADER_LEN - i,
    {
        out[i] = bytes[i] ^ mask[i];
        i = i + 1;
    }
    assert(out@ =~= masked(bytes@, mask@));
    out
}

/// The header of a packet under the mask of its nonce.
pub fn mask_network_header(
    header: NetworkHeader,
    mask_nonce: &[u8; MASK_NONCE_LEN],
    network_key: &[u8; K_HEADER_LEN],
) -> (r: [u8; NETWORK_HEADER_LEN])
    ensures
        r@ == masked(header.bytes(), header_mask(mask_nonce@, network_key@)),
{
    let plain = encode_header(header);
    mask_bytes(&plain, mask_nonce, network_key)
}

/// The sixteen bytes of a header.
pub fn encode_header(header: NetworkHeader) -> (r: [u8; NETWORK_HEADER_LEN])
    ensures
        r@ == header.bytes(),
{
    let mut out: Vec<u8> = Vec::with_capacity(NETWORK_HEADER_LEN);
    out.push(header.kind);
    out.push(header.frag_index);
    out.push(header.frag_total);
    out.push(0);
    put_u32(&mut out, header.dst_peer_id);
    put_u32(&mut out, header.session_id);
    put_u32(&mut out, 0);
    assert(out@ =~= header.bytes());
    let r: [u8; NETWORK_HEADER_LEN] = array_from(out.as_slice());
    assert(r@ =~= header.bytes());
    r
}

/// The header that sixteen bytes encode, if they are the encoding of one of a known kind.
pub fn decode_header(bytes: &[u8; NETWORK_HEADER_LEN]) -> (r: Option<NetworkHeader>)
    ensures
        r == read_header(bytes@),
        forall|header: NetworkHeader|
            r == Some(header) <==> #[trigger] header.bytes() == bytes@ && known_kind(header.kind),
{
    proof {
        assert forall|header: NetworkHeader|
            read_header(bytes@) == Some(header) <==> #[trigger] header.bytes() == bytes@ && known_kind(
                header.kind,
            ) by {
            law_header_is_its_encoding(bytes@, header);
        }
    }
    if bytes[3] != 0 || bytes[12] != 0 || bytes[13] != 0 || bytes[14] != 0 || bytes[15] != 0 {
        return None;
    }
    let kind: u8 = bytes[0];
    let known = kind == KIND_DATA || kind == KIND_RELAY_FORWARD || kind == KIND_DISCONNECT || kind
        == KIND_LIGHTHOUSE_QUERY || kind == KIND_LIGHTHOUSE_RESPONSE || kind == KIND_LIGHTHOUSE_NOT_FOUND || kind
        == KIND_KEEPALIVE || kind == KIND_KEEPALIVE_ACK || kind == KIND_HANDSHAKE_1 || kind == KIND_HANDSHAKE_2 || kind
        == KIND_HANDSHAKE_FRAG;
    if !known {
        return None;
    }
    let dst_peer_id: u32 = bytes[4] as u32 * 0x100_0000 + bytes[5] as u32 * 0x1_0000 + bytes[6] as u32 * 0x100
        + bytes[7] as u32;
    let session_id: u32 = bytes[8] as u32 * 0x100_0000 + bytes[9] as u32 * 0x1_0000 + bytes[10] as u32 * 0x100
        + bytes[11] as u32;
    Some(NetworkHeader { kind, frag_index: bytes[1], frag_total: bytes[2], dst_peer_id, session_id })
}

fn unmask_header(pkt: &DataPacket, network_key: &[u8; K_HEADER_LEN]) -> (r: Option<NetworkHeader>)
    ensures
        r == unmasked_header(pkt.masked_header@, pkt.mask_nonce@, network_key@),
{
    let plain = mask_bytes(&pkt.masked_header, &pkt.mask_nonce, network_key);
    decode_header(&plain)
}

/// The associated data of a packet.
pub fn packet_aad(pkt: &DataPacket) -> (r: [u8; AAD_LEN])
    ensures
        r@ == pkt.aad(),
{
    aad_of(&pkt.mask_nonce, &pkt.masked_header)
}

fn aad_of(mask_nonce: &[u8; MASK_NONCE_LEN], masked_header: &[u8; NETWORK_HEADER_LEN]) -> (r: [u8; AAD_LEN])
    ensures
        r@ == mask_nonce@ + masked_header@,
{
    let mut aad: Vec<u8> = Vec::with_capacity(AAD_LEN);
    put_slice(&mut aad, mask_nonce);
    put_slice(&mut aad, masked_header);
    let r: [u8; AAD_LEN] = array_from(aad.as_slice());
    assert(r@ =~= mask_nonce@ + masked_header@);
    r
}

/// Encrypts `plaintext` with `key` under a header, with given nonces.
pub fn seal_with(
    header: NetworkHeader,
    plaintext: &[u8],
    network_key: &[u8; K_HEADER_LEN],
    key: &[u8; SESSION_KEY_LEN],
    mask_nonce: [u8; MASK_NONCE_LEN],
    nonce: [u8; NONCE_LEN],
) -> (r: DataPacket)
    requires
        plaintext@.len() < PLAINTEXT_LIMIT,
    ensures
        r.mask_nonce == mask_nonce,
        r.nonce == nonce,
        r.seals(header, plaintext@, network_key@, key@),
{
    let masked_header = mask_network_header(header, &mask_nonce, network_key);
    let aad = aad_of(&mask_nonce, &masked_header);
    let ciphertext = encrypt(key, &nonce, plaintext, &aad);
    DataPacket { mask_nonce, masked_header, nonce, ciphertext }
}

/// Encrypts a body and padding under the key and the header of a session.
fn seal(
    Ghost(body): Ghost<Body>,
    Ghost(padding): Ghost<Seq<u8>>,
    kind: u8,
    dst_peer_id: u32,
    session_id: u32,
    network_key: &[u8; K_HEADER_LEN],
    session_key: &[u8; SESSION_KEY_LEN],
    plaintext: &[u8],
) -> (r: DataPacket)
    requires
        plaintext@.len() < PLAINTEXT_LIMIT,
        plaintext@ == body.bytes() + padding,
        padding.len() < PADDING_LIMIT,
        kind == body.kind(),
    ensures
        r.carries(body, dst_peer_id, session_id, network_key@, session_key@),
        body.fits() ==> r.reads_back(body, dst_peer_id, session_id, network_key@, session_key@),
{
    let header = NetworkHeader { kind, frag_index: 0, frag_total: 0, dst_peer_id, session_id };
    let mut packet_key = derive_labeled_key("liteway-packet-key-v2", session_key);
    let pkt = seal_with(header, plaintext, network_key, &packet_key, random_array(), random_array());
    assert(pkt.seals(header, body.bytes() + padding, network_key@, packet_key_of(session_key@)));
    wipe(&mut packet_key);
    proof {
        if body.fits() {
            law_decryption_returns_body(pkt, body, dst_peer_id, session_id, network_key@, session_key@);
        }
    }
    pkt
}

/// Appends fewer than `PADDING_LIMIT` random bytes.
fn add_random_padding(out: &mut Vec<u8>) -> (padding: Ghost<Seq<u8>>)
    ensures
        padding@.len() < PADDING_LIMIT,
        final(out)@ == old(out)@ + padding@,
{
    let padding = random_padding();
    put_slice(out, padding.as_slice());
    Ghost(padding@)
}

/// The length of the padding that a random byte stands for.
pub fn padding_len(draw: u8) -> (r: usize)
    ensures
        r == draw as int % PADDING_LIMIT as int,
{
    (draw % 32) as usize
}

/// Fewer than `PADDING_LIMIT` random bytes.
pub(crate) fn random_padding() -> (r: Vec<u8>)
    ensures
        r@.len() < PADDING_LIMIT,
{
    let draw: [u8; 1] = random_array();
    random_bytes(padding_len(draw[0]))
}

/// Starts the plaintext of a packet: the kind and the sequence number.
fn start_plaintext(kind: u8, seq: u64) -> (r: Vec<u8>)
    ensures
        r@ == seq![kind] + be64(seq),
{
    let mut out: Vec<u8> = Vec::new();
    out.push(kind);
    put_u64(&mut out, seq);
    assert(out@ =~= seq![kind] + be64(seq));
    out
}

/// A packet that carries an IP packet.
pub fn encrypt_data_packet(
    seq: u64,
    dst_peer_id: u32,
    session_id: u32,
    ip_packet: &[u8],
    network_key: &[u8; K_HEADER_LEN],
    session_key: &[u8; SESSION_KEY_LEN],
) -> (r: DataPacket)
    requires
        ip_packet@.len() + 44 < PLAINTEXT_LIMIT,
    ensures
        r.carries(Body::Data { seq, ip_packet: ip_packet@ }, dst_peer_id, session_id, network_key@, session_key@),
        ip_packet@.len() <= u32::MAX ==> r.reads_back(
            Body::Data { seq, ip_packet: ip_packet@ },
            dst_peer_id,
            session_id,
            network_key@,
            session_key@,
        ),
{
    let ghost body = Body::Data { seq, ip_packet: ip_packet@ };
    let mut plaintext = start_plaintext(KIND_DATA, seq);
    put_vec_u32(&mut plaintext, ip_packet);
    assert(plaintext@ =~= body.bytes());
    let padding = add_random_padding(&mut plaintext);
    seal(Ghost(body), padding, KIND_DATA, dst_peer_id, session_id, network_key, session_key, plaintext.as_slice())
}

/// A packet that ends a session.
pub fn encrypt_disconnect_packet(
    seq: u64,
    dst_peer_id: u32,
    session_id: u32,
    network_key: &[u8; K_HEADER_LEN],
    session_key: &[u8; SESSION_KEY_LEN],
) -> (r: DataPacket)
    ensures
        r.carries(Body::Disconnect { seq }, dst_peer_id, session_id, network_key@, session_key@),
        r.reads_back(Body::Disconnect { seq }, dst_peer_id, session_id, network_key@, session_key@),
{
    let ghost body = Body::Disconnect { seq };
    let mut plaintext = start_plaintext(KIND_DISCONNECT, seq);
    assert(plaintext@ =~= body.bytes());
    let padding = add_random_padding(&mut plaintext);
    seal(Ghost(body), padding, KIND_DISCONNECT, dst_peer_id, session_id, network_key, session_key, plaintext.as_slice())
}

/// A packet that asks a relay to pass an inner packet on to another peer.
pub fn encrypt_relay_forward_packet(
    seq: u64,
    dst_peer_id: u32,
    session_id: u32,
    next_peer_id: u32,
    inner_packet: &[u8],
    network_key: &[u8; K_HEADER_LEN],
    session_key: &[u8; SESSION_KEY_LEN],
) -> (r: DataPacket)
    requires
        inner_packet@.len() + 48 < PLAINTEXT_LIMIT,
    ensures
        r.carries(
            Body::RelayForward { seq, next_peer_id, inner_packet: inner_packet@ },
            dst_peer_id,
            session_id,
            network_key@,
            session_key@,
        ),
        inner_packet@.len() <= u32::MAX ==> r.reads_back(
            Body::RelayForward { seq, next_peer_id, inner_packet: inner_packet@ },
            dst_peer_id,
            session_id,
            network_key@,
            session_key@,
        ),
{
    let ghost body = Body::RelayForward { seq, next_peer_id, inner_packet: inner_packet@ };
    let mut plaintext = start_plaintext(KIND_RELAY_FORWARD, seq);
    put_u32(&mut plaintext, next_peer_id);
    put_vec_u32(&mut plaintext, inner_packet);
    assert(plaintext@ =~= body.bytes());
    let padding = add_random_padding(&mut plaintext);
    seal(
        Ghost(body),
        padding,
        KIND_RELAY_FORWARD,
        dst_peer_id,
        session_id,
        network_key,
        session_key,
        plaintext.as_slice(),
    )
}

/// A packet that acknowledges or asks for a sign of life: the two differ in the kind.
fn encrypt_token(
    kind: u8,
    Ghost(body): Ghost<Body>,
    seq: u64,
    dst_peer_id: u32,
    session_id: u32,
    token: u64,
    network_key: &[u8; K_HEADER_LEN],
    session_key: &[u8; SESSION_KEY_LEN],
) -> (r: DataPacket)
    requires
        body.kind() == kind,
        body.seq() == seq,
        body.content() == be64(token),
        body.fits(),
    ensures
        r.carries(body, dst_peer_id, session_id, network_key@, session_key@),
        r.reads_back(body, dst_peer_id, session_id, network_key@, session_key@),
{
    let mut plaintext = start_plaintext(kind, seq);
    put_u64(&mut plaintext, token);
    assert(plaintext@ =~= body.bytes());
    let padding = add_random_padding(&mut plaintext);
    seal(Ghost(body), padding, kind, dst_peer_id, session_id, network_key, session_key, plaintext.as_slice())
}

/// A packet that asks for a sign of life.
pub fn encrypt_keepalive_packet(
    seq: u64,
    dst_peer_id: u32,
    session_id: u32,
    token: u64,
    network_key: &[u8; K_HEADER_LEN],
    session_key: &[u8; SESSION_KEY_LEN],
) -> (r: DataPacket)
    ensures
        r.carries(Body::Keepalive { seq, token }, dst_peer_id, session_id, network_key@, session_key@),
        r.reads_back(Body::Keepalive { seq, token }, dst_peer_id, session_id, network_key@, session_key@),
{
    let ghost body = Body::Keepalive { seq, token };
    encrypt_token(KIND_KEEPALIVE, Ghost(body), seq, dst_peer_id, session_id, token, network_key, session_key)
}

/// A packet that answers a keepalive with its token.
pub fn encrypt_keepalive_ack_packet(
    seq: u64,
    dst_peer_id: u32,
    session_id: u32,
    token: u64,
    network_key: &[u8; K_HEADER_LEN],
    session_key: &[u8; SESSION_KEY_LEN],
) -> (r: DataPacket)
    ensures
        r.carries(Body::KeepaliveAck { seq, token }, dst_peer_id, session_id, network_key@, session_key@),
        r.reads_back(Body::KeepaliveAck { seq, token }, dst_peer_id, session_id, network_key@, session_key@),
{
    let ghost body = Body::KeepaliveAck { seq, token };
    encrypt_token(KIND_KEEPALIVE_ACK, Ghost(body), seq, dst_peer_id, session_id, token, network_key, session_key)
}

/// A packet that carries the text of an address: the kinds differ in nothing else.
fn encrypt_ip(
    kind: u8,
    Ghost(body): Ghost<Body>,
    seq: u64,
    dst_peer_id: u32,
    session_id: u32,
    target_ip: IpAddr,
    network_key: &[u8; K_HEADER_LEN],
    session_key: &[u8; SESSION_KEY_LEN],
) -> (r: DataPacket)
    requires
        body.kind() == kind,
        body.seq() == seq,
        body.content() == field(encode_utf8(ip_text(target_ip))),
        fits_text(target_ip) ==> body.fits(),
    ensures
        body.sealable(),
        r.carries(body, dst_peer_id, session_id, network_key@, session_key@),
        r.reads_back(body, dst_peer_id, session_id, network_key@, session_key@),
{
    let ip = format_ip(target_ip);
    proof {
        lemma_utf8_len(ip@);
    }
    let mut plaintext = start_plaintext(kind, seq);
    put_vec_u32(&mut plaintext, ip.as_str().as_bytes());
    assert(plaintext@ =~= body.bytes());
    let padding = add_random_padding(&mut plaintext);
    seal(Ghost(body), padding, kind, dst_peer_id, session_id, network_key, session_key, plaintext.as_slice())
}

/// A packet that asks a lighthouse for the peer behind an address.
pub fn encrypt_lighthouse_query_packet(
    seq: u64,
    dst_peer_id: u32,
    session_id: u32,
    target_ip: IpAddr,
    network_key: &[u8; K_HEADER_LEN],
    session_key: &[u8; SESSION_KEY_LEN],
) -> (r: DataPacket)
    ensures
        (Body::LighthouseQuery { seq, target_ip }).sealable(),
        r.carries(Body::LighthouseQuery { seq, target_ip }, dst_peer_id, session_id, network_key@, session_key@),
        r.reads_back(Body::LighthouseQuery { seq, target_ip }, dst_peer_id, session_id, network_key@, session_key@),
{
    let ghost body = Body::LighthouseQuery { seq, target_ip };
    encrypt_ip(KIND_LIGHTHOUSE_QUERY, Ghost(body), seq, dst_peer_id, session_id, target_ip, network_key, session_key)
}

/// A packet that says that a lighthouse knows no peer behind an address.
pub fn encrypt_lighthouse_not_found_packet(
    seq: u64,
    dst_peer_id: u32,
    session_id: u32,
    target_ip: IpAddr,
    network_key: &[u8; K_HEADER_LEN],
    session_key: &[u8; SESSION_KEY_LEN],
) -> (r: DataPacket)
    ensures
        (Body::LighthouseNotFound { seq, target_ip }).sealable(),
        r.carries(Body::LighthouseNotFound { seq, target_ip }, dst_peer_id, session_id, network_key@, session_key@),
        r.reads_back(Body::LighthouseNotFound { seq, target_ip }, dst_peer_id, session_id, network_key@, session_key@),
{
    let ghost body = Body::LighthouseNotFound { seq, target_ip };
    encrypt_ip(KIND_LIGHTHOUSE_NOT_FOUND, Ghost(body), seq, dst_peer_id, session_id, target_ip, network_key, session_key)
}

/// Seven pieces joined from the left are the same pieces joined from the right.
proof fn lemma_regroup(a: Seq<u8>, b: Seq<u8>, c: Seq<u8>, d: Seq<u8>, e: Seq<u8>, f: Seq<u8>, g: Seq<u8>)
    ensures
        a + b + c + d + e + f + g == a + (b + (c + (d + (e + (f + g))))),
{
    assert(a + b + c + d + e + f + g =~= a + (b + (c + (d + (e + (f + g))))));
}

/// A packet that introduces the peer behind an address: where it is reached, its
/// certificate, and whether it relays.
pub fn encrypt_lighthouse_response_packet(
    seq: u64,
    dst_peer_id: u32,
    session_id: u32,
    target_ip: IpAddr,
    peer_id: u32,
    peer_addr: SocketAddr,
    peer_cert: &Cert,
    peer_is_relay: bool,
    network_key: &[u8; K_HEADER_LEN],
    session_key: &[u8; SESSION_KEY_LEN],
) -> (r: DataPacket)
    requires
        (Body::LighthouseResponse {
            seq,
            target_ip,
            peer_id,
            peer_addr,
            peer_cert: peer_cert.json(),
            peer_is_relay,
        }).sealable(),
    ensures
        r.carries(
            Body::LighthouseResponse {
                seq,
                target_ip,
                peer_id,
                peer_addr,
                peer_cert: peer_cert.json(),
                peer_is_relay,
            },
            dst_peer_id,
            session_id,
            network_key@,
            session_key@,
        ),
        ({
            let body = Body::LighthouseResponse {
                seq,
                target_ip,
                peer_id,
                peer_addr: peer_addr.written(),
                peer_cert: peer_cert.json(),
                peer_is_relay,
            };
            &&& peer_cert.json().len() <= u32::MAX ==> r.reads_back(
                body,
                dst_peer_id,
                session_id,
                network_key@,
                session_key@,
            )
        }),
{
    let ghost body = Body::LighthouseResponse {
        seq,
        target_ip,
        peer_id,
        peer_addr: peer_addr.written(),
        peer_cert: peer_cert.json(),
        peer_is_relay,
    };
    let ip = format_ip(target_ip);
    proof {
        lemma_utf8_len(ip@);
    }
    let addr = format_socket_addr(peer_addr);
    proof {
        lemma_utf8_len(addr@);
        assert(socket_text(peer_addr.written()) == socket_text(peer_addr));
    }
    let cert = peer_cert.to_bytes();
    let mut plaintext = start_plaintext(KIND_LIGHTHOUSE_RESPONSE, seq);
    put_vec_u32(&mut plaintext, ip.as_str().as_bytes());
    put_u32(&mut plaintext, peer_id);
    put_vec_u32(&mut plaintext, addr.as_str().as_bytes());
    put_vec_u32(&mut plaintext, cert.as_slice());
    let flag: [u8; 1] = [if peer_is_relay { 1 } else { 0 }];
    put_slice(&mut plaintext, &flag);
    proof {
        assert(flag@ =~= seq![if peer_is_relay { 1u8 } else { 0u8 }]);
        lemma_regroup(
            seq![KIND_LIGHTHOUSE_RESPONSE],
            be64(seq),
            field(encode_utf8(ip_text(target_ip))),
            be32(peer_id),
            field(encode_utf8(socket_text(peer_addr))),
            field(peer_cert.json()),
            flag@,
        );
    }
    let padding = add_random_padding(&mut plaintext);
    assert(body.bytes() == (Body::LighthouseResponse {
        seq,
        target_ip,
        peer_id,
        peer_addr,
        peer_cert: peer_cert.json(),
        peer_is_relay,
    }).bytes());
    seal(
        Ghost(body),
        padding,
        KIND_LIGHTHOUSE_RESPONSE,
        dst_peer_id,
        session_id,
        network_key,
        session_key,
        plaintext.as_slice(),
    )
}

/// Whether a plaintext of the given parts is short enough to be encrypted with any padding.
fn parts_fit(fixed: u64, a: usize, b: usize, c: usize) -> (r: bool)
    requires
        fixed <= 1024,
    ensures
        r == (fixed + a + b + c + PADDING_LIMIT <= PLAINTEXT_LIMIT),
{
    let limit: u64 = PLAINTEXT_LIMIT;
    if a as u64 > limit || b as u64 > limit || c as u64 > limit {
        return false;
    }
    fixed + a as u64 + b as u64 + c as u64 + PADDING_LIMIT as u64 <= limit
}

/// The length of a lighthouse's response.
proof fn lemma_response_len(
    seq: u64,
    target_ip: IpAddr,
    peer_id: u32,
    peer_addr: SocketAddr,
    peer_cert: Seq<u8>,
    peer_is_relay: bool,
)
    ensures
        (Body::LighthouseResponse { seq, target_ip, peer_id, peer_addr, peer_cert, peer_is_relay }).bytes().len() == 26
            + encode_utf8(ip_text(target_ip)).len() + encode_utf8(socket_text(peer_addr)).len() + peer_cert.len(),
{
    let flag = seq![if peer_is_relay { 1u8 } else { 0u8 }];
    let s3 = field(peer_cert) + flag;
    let s2 = field(encode_utf8(socket_text(peer_addr))) + s3;
    let s1 = be32(peer_id) + s2;
    let s0 = field(encode_utf8(ip_text(target_ip))) + s1;
    assert(s0.len() == 17 + encode_utf8(ip_text(target_ip)).len() + encode_utf8(socket_text(peer_addr)).len() + peer_cert.len());
}

/// `encrypt_lighthouse_response_packet`, or `None` where the address and the certificate are
/// too long to be encrypted.
pub fn try_encrypt_lighthouse_response_packet(
    seq: u64,
    dst_peer_id: u32,
    session_id: u32,
    target_ip: IpAddr,
    peer_id: u32,
    peer_addr: SocketAddr,
    peer_cert: &Cert,
    peer_is_relay: bool,
    network_key: &[u8; K_HEADER_LEN],
    session_key: &[u8; SESSION_KEY_LEN],
) -> (r: Option<DataPacket>)
    ensures
        ({
            let body = Body::LighthouseResponse {
                seq,
                target_ip,
                peer_id,
                peer_addr,
                peer_cert: peer_cert.json(),
                peer_is_relay,
            };
            &&& r is Some == body.sealable()
            &&& r matches Some(pkt) ==> pkt.carries(body, dst_peer_id, session_id, network_key@, session_key@)
        }),
{
    let ip = format_ip(target_ip);
    let addr = format_socket_addr(peer_addr);
    let cert = peer_cert.to_bytes();
    proof {
        lemma_response_len(seq, target_ip, peer_id, peer_addr, cert@, peer_is_relay);
    }
    if !parts_fit(26, ip.as_str().as_bytes().len(), addr.as_str().as_bytes().len(), cert.len()) {
        return None;
    }
    Some(
        encrypt_lighthouse_response_packet(
            seq,
            dst_peer_id,
            session_id,
            target_ip,
            peer_id,
            peer_addr,
            peer_cert,
            peer_is_relay,
            network_key,
            session_key,
        ),
    )
}

/// Opens the ciphertext of a packet: `None` where the tag does not fit, or where it is
/// longer than any that can be made.
pub(crate) fn open_with(pkt: &DataPacket, key: &[u8; SESSION_KEY_LEN]) -> (r: Option<Vec<u8>>)
    ensures
        r is Some == wire_opened(pkt.wire(), key@) is Some,
        r matches Some(plaintext) ==> {
            &&& wire_opened(pkt.wire(), key@) == Some(plaintext@)
            &&& authentic(pkt.wire(), key@)
        },
{
    proof {
        law_wire_keeps_packet(*pkt);
    }
    if pkt.ciphertext.len() as u64 >= PLAINTEXT_LIMIT + AEAD_TAG_LEN as u64 {
        return None;
    }
    let aad = packet_aad(pkt);
    decrypt(key, &pkt.nonce, pkt.ciphertext.as_slice(), &aad)
}

/// Opens a packet of a session: `None` where the header is not of this network, the tag
/// does not fit, or the plaintext is not that of a body of the kind that the header says.
/// The certificate in a lighthouse's response is handed on as it is written.
pub fn decrypt_packet(
    data: &[u8],
    network_key: &[u8; K_HEADER_LEN],
    session_key: &[u8; SESSION_KEY_LEN],
) -> (r: Option<(NetworkHeader, PacketBody)>)
    ensures
        r is Some == decrypted(data@, network_key@, session_key@) is Some,
        r matches Some((header, body)) ==> {
            &&& decrypted(data@, network_key@, session_key@) == Some((header, body@))
            &&& authentic(data@, packet_key_of(session_key@))
        },
{
    let pkt = deserialize_packet(data)?;
    let header = unmask_header(&pkt, network_key)?;
    let mut packet_key = derive_labeled_key("liteway-packet-key-v2", session_key);
    let opened = open_with(&pkt, &packet_key);
    wipe(&mut packet_key);
    let plaintext = opened?;
    let body = parse_body(plaintext.as_slice(), header.kind)?;
    Some((header, body))
}

/// The address whose text the next field holds.
fn parse_ip_field(rd: &mut Reader) -> (r: Option<IpAddr>)
    ensures
        r is Some == read_ip(old(rd)@) is Some,
        r matches Some(ip) ==> read_ip(old(rd)@) == Some((ip, final(rd)@)),
{
    let bytes = rd.vec_u32()?;
    let text = text_from_utf8(bytes)?;
    parse_ip(text)
}

/// The body that a plaintext carries, if it is of the given kind.
fn parse_body(plaintext: &[u8], expected_kind: u8) -> (r: Option<PacketBody>)
    ensures
        r is Some == (read_body(plaintext@) is Some && read_body(plaintext@)->0.kind() == expected_kind),
        r matches Some(body) ==> read_body(plaintext@) == Some(body@),
{
    let mut rd = Reader::new(plaintext);
    let kind: u8 = rd.u8()?;
    let seq: u64 = rd.u64()?;
    assert(rd@ =~= plaintext@.skip(9));
    if kind != expected_kind {
        return None;
    }
    if kind == KIND_DATA {
        let ip_packet = to_vec(rd.vec_u32()?);
        Some(PacketBody::Data { seq, ip_packet })
    } else if kind == KIND_RELAY_FORWARD {
        let next_peer_id: u32 = rd.u32()?;
        let inner_packet = to_vec(rd.vec_u32()?);
        Some(PacketBody::RelayForward { seq, next_peer_id, inner_packet })
    } else if kind == KIND_DISCONNECT {
        Some(PacketBody::Disconnect { seq })
    } else if kind == KIND_LIGHTHOUSE_QUERY {
        let target_ip = parse_ip_field(&mut rd)?;
        Some(PacketBody::LighthouseQuery { seq, target_ip })
    } else if kind == KIND_LIGHTHOUSE_RESPONSE {
        let target_ip = parse_ip_field(&mut rd)?;
        let peer_id: u32 = rd.u32()?;
        let peer_addr = parse_socket_addr(text_from_utf8(rd.vec_u32()?)?)?;
        let peer_cert = to_vec(rd.vec_u32()?);
        let peer_is_relay = rd.u8()? != 0;
        Some(PacketBody::LighthouseResponse { seq, target_ip, peer_id, peer_addr, peer_cert, peer_is_relay })
    } else if kind == KIND_LIGHTHOUSE_NOT_FOUND {
        let target_ip = parse_ip_field(&mut rd)?;
        Some(PacketBody::LighthouseNotFound { seq, target_ip })
    } else if kind == KIND_KEEPALIVE {
        let token: u64 = rd.u64()?;
        Some(PacketBody::Keepalive { seq, token })
    } else if kind == KIND_KEEPALIVE_ACK {
        let token: u64 = rd.u64()?;
        Some(PacketBody::KeepaliveAck { seq, token })
    } else {
        None
    }
}

/// The sequence number of a body.
pub fn packet_seq(body: &PacketBody) -> (r: u64)
    ensures
        r == body@.seq(),
{
    match body {
        PacketBody::Data { seq, .. } => *seq,
        PacketBody::RelayForward { seq, .. } => *seq,
        PacketBody::Disconnect { seq } => *seq,
        PacketBody::LighthouseQuery { seq, .. } => *seq,
        PacketBody::LighthouseResponse { seq, .. } => *seq,
        PacketBody::LighthouseNotFound { seq, .. } => *seq,
        PacketBody::Keepalive { seq, .. } => *seq,
        PacketBody::KeepaliveAck { seq, .. } => *seq,
    }
}

/// The packet in the order of its parts on the wire.
pub fn serialize_packet(pkt: &DataPacket) -> (r: Vec<u8>)
    ensures
        r@ == pkt.wire(),
{
    let mut buf: Vec<u8> = Vec::new();
    put_slice(&mut buf, &pkt.mask_nonce);
    put_slice(&mut buf, &pkt.masked_header);
    put_slice(&mut buf, &pkt.nonce);
    put_slice(&mut buf, pkt.ciphertext.as_slice());
    assert(buf@ =~= pkt.wire());
    buf
}

/// The parts of a packet on the wire; `None` where it is too short to have them.
pub fn deserialize_packet(data: &[u8]) -> (r: Option<DataPacket>)
    ensures
        r is Some == (data@.len() >= MIN_PACKET_LEN),
        r matches Some(pkt) ==> {
            &&& pkt.mask_nonce@ == wire_mask_nonce(data@)
            &&& pkt.masked_header@ == wire_masked_header(data@)
            &&& pkt.nonce@ == wire_nonce(data@)
            &&& pkt.ciphertext@ == wire_ciphertext(data@)
            &&& pkt.wire() == data@
            &&& pkt.aad() == data@.take(24)
        },
{
    if data.len() < MIN_PACKET_LEN {
        return None;
    }
    let mut rd = Reader::new(data);
    let mask_nonce: [u8; MASK_NONCE_LEN] = rd.array()?;
    let masked_header: [u8; NETWORK_HEADER_LEN] = rd.array()?;
    let nonce: [u8; NONCE_LEN] = rd.array()?;
    let ciphertext = to_vec(rd.bytes(data.len() - 36)?);
    let pkt = DataPacket { mask_nonce, masked_header, nonce, ciphertext };
    assert(mask_nonce@ =~= wire_mask_nonce(data@));
    assert(masked_header@ =~= wire_masked_header(data@));
    assert(nonce@ =~= wire_nonce(data@));
    assert(pkt.ciphertext@ =~= wire_ciphertext(data@));
    assert(pkt.wire() =~= data@);
    assert(pkt.aad() =~= data@.take(24));
    Some(pkt)
}

/// The header of a packet on the wire, for whoever holds the network key.
pub fn network_header(data: &[u8], network_key: &[u8; K_HEADER_LEN]) -> (r: Option<NetworkHeader>)
    ensures
        r == wire_header(data@, network_key@),
{
    let pkt = deserialize_packet(data)?;
    unmask_header(&pkt, network_key)
}

/// The key for one direction of a session.
pub fn derive_traffic_key(session_key: &[u8; SESSION_KEY_LEN], src_id: u32, dst_id: u32) -> (r: [u8; SESSION_KEY_LEN])
    ensures
        r@ == traffic_key_of(session_key@, src_id, dst_id),
{
    let mut input: Vec<u8> = Vec::with_capacity(SESSION_KEY_LEN + 8);
    put_slice(&mut input, session_key);
    put_u32(&mut input, src_id);
    put_u32(&mut input, dst_id);
    assert(input@ =~= session_key@ + be32(src_id) + be32(dst_id));
    let key = derive_labeled_key("liteway-traffic-key-v2", input.as_slice());
    wipe(input.as_mut_slice());
    key
}

/// Masking twice gives the bytes back.
proof fn lemma_mask_involution(bytes: Seq<u8>, mask: Seq<u8>)
    requires
        bytes.len() == NETWORK_HEADER_LEN,
    ensures
        masked(masked(bytes, mask), mask) == bytes,
{
    assert forall|i: int| 0 <= i < NETWORK_HEADER_LEN implies masked(masked(bytes, mask), mask)[i] == bytes[i] by {
        let b = bytes[i];
        let m = mask[i];
        assert((b ^ m) ^ m == b) by (bit_vector);
    }
    assert(masked(masked(bytes, mask), mask) =~= bytes);
}

/// A header is read back from its sixteen bytes.
proof fn lemma_header_bytes(header: NetworkHeader)
    requires
        known_kind(header.kind),
    ensures
        header.bytes().len() == NETWORK_HEADER_LEN,
        read_header(header.bytes()) == Some(header),
{
    let b = header.bytes();
    let zeros = seq![0u8, 0u8, 0u8, 0u8];
    assert(b.skip(4) =~= be32(header.dst_peer_id) + (be32(header.session_id) + zeros));
    assert(b.skip(8) =~= be32(header.session_id) + zeros);
    lemma_be32(header.dst_peer_id, be32(header.session_id) + zeros);
    lemma_be32(header.session_id, zeros);
}

/// Whoever holds the network key reads back the header that was masked.
pub proof fn law_header_survives_masking(header: NetworkHeader, mask_nonce: Seq<u8>, network_key: Seq<u8>)
    requires
        known_kind(header.kind),
    ensures
        unmasked_header(masked(header.bytes(), header_mask(mask_nonce, network_key)), mask_nonce, network_key) == Some(
            header,
        ),
{
    lemma_header_bytes(header);
    lemma_mask_involution(header.bytes(), header_mask(mask_nonce, network_key));
}

/// Taking a packet apart from the wire gives back the parts that were put there.
pub proof fn law_wire_keeps_packet(pkt: DataPacket)
    ensures
        wire_mask_nonce(pkt.wire()) == pkt.mask_nonce@,
        wire_masked_header(pkt.wire()) == pkt.masked_header@,
        wire_nonce(pkt.wire()) == pkt.nonce@,
        wire_ciphertext(pkt.wire()) == pkt.ciphertext@,
        pkt.wire().take(24) == pkt.aad(),
{
    let w = pkt.wire();
    assert(wire_mask_nonce(w) =~= pkt.mask_nonce@);
    assert(wire_masked_header(w) =~= pkt.masked_header@);
    assert(wire_nonce(w) =~= pkt.nonce@);
    assert(wire_ciphertext(w) =~= pkt.ciphertext@);
    assert(w.take(24) =~= pkt.aad());
}

/// The holders of the keys read from the wire the header and the plaintext of a sealed
/// packet.
pub proof fn law_sealed_packet_opens(
    pkt: DataPacket,
    header: NetworkHeader,
    plaintext: Seq<u8>,
    network_key: Seq<u8>,
    key: Seq<u8>,
)
    requires
        pkt.seals(header, plaintext, network_key, key),
        known_kind(header.kind),
    ensures
        pkt.wire().len() == plaintext.len() + PACKET_OVERHEAD,
        wire_header(pkt.wire(), network_key) == Some(header),
        wire_opened(pkt.wire(), key) == Some(plaintext),
{
    law_wire_keeps_packet(pkt);
    law_header_survives_masking(header, pkt.mask_nonce@, network_key);
}

/// The text of an address is read back from its field.
proof fn lemma_read_ip(ip: IpAddr, rest: Seq<u8>)
    requires
        fits_text(ip),
    ensures
        read_ip(field(encode_utf8(ip_text(ip))) + rest) == Some((ip, rest)),
{
    lemma_field(encode_utf8(ip_text(ip)), rest);
    lemma_read_text(ip_text(ip));
}

/// Text is read back from its bytes.
proof fn lemma_read_text(text: Seq<char>)
    ensures
        read_text(encode_utf8(text)) == Some(text),
{
    encode_utf8_valid_utf8(text);
    encode_utf8_decode_utf8(text);
}

/// A lighthouse's response is read back from its content.
proof fn lemma_read_response(
    seq: u64,
    target_ip: IpAddr,
    peer_id: u32,
    peer_addr: SocketAddr,
    peer_cert: Seq<u8>,
    peer_is_relay: bool,
    padding: Seq<u8>,
)
    requires
        (Body::LighthouseResponse { seq, target_ip, peer_id, peer_addr, peer_cert, peer_is_relay }).fits(),
    ensures
        ({
            let body = Body::LighthouseResponse { seq, target_ip, peer_id, peer_addr, peer_cert, peer_is_relay };
            read_response(seq, body.content() + padding) == Some(body)
        }),
{
    let body = Body::LighthouseResponse { seq, target_ip, peer_id, peer_addr, peer_cert, peer_is_relay };
    let flag = seq![if peer_is_relay { 1u8 } else { 0u8 }];
    let s3 = flag + padding;
    let s2 = field(peer_cert) + s3;
    let s1 = field(encode_utf8(socket_text(peer_addr))) + s2;
    let s0 = be32(peer_id) + s1;
    assert(body.content() + padding =~= field(encode_utf8(ip_text(target_ip))) + s0);
    lemma_read_ip(target_ip, s0);
    lemma_be32(peer_id, s1);
    lemma_field(encode_utf8(socket_text(peer_addr)), s2);
    lemma_read_text(socket_text(peer_addr));
    lemma_field(peer_cert, s3);
    assert(s3[0] == flag[0]);
}

/// What follows the kind and the sequence number of a body reads back as the body.
proof fn lemma_read_content(body: Body, padding: Seq<u8>)
    requires
        body.fits(),
    ensures
        read_content(body.kind(), body.seq(), body.content() + padding) == Some(body),
{
    match body {
        Body::Data { ip_packet, .. } => {
            lemma_field(ip_packet, padding);
        },
        Body::RelayForward { next_peer_id, inner_packet, .. } => {
            assert(body.content() + padding =~= be32(next_peer_id) + (field(inner_packet) + padding));
            lemma_be32(next_peer_id, field(inner_packet) + padding);
            lemma_field(inner_packet, padding);
        },
        Body::Disconnect { .. } => {},
        Body::LighthouseQuery { target_ip, .. } => {
            lemma_read_ip(target_ip, padding);
        },
        Body::LighthouseResponse { seq, target_ip, peer_id, peer_addr, peer_cert, peer_is_relay } => {
            lemma_read_response(seq, target_ip, peer_id, peer_addr, peer_cert, peer_is_relay, padding);
        },
        Body::LighthouseNotFound { target_ip, .. } => {
            lemma_read_ip(target_ip, padding);
        },
        Body::Keepalive { token, .. } => {
            lemma_be64(token, padding);
        },
        Body::KeepaliveAck { token, .. } => {
            lemma_be64(token, padding);
        },
    }
}

/// A body is read back from its encoding, whatever padding follows.
pub proof fn law_body_survives_encoding(body: Body, padding: Seq<u8>)
    requires
        body.fits(),
    ensures
        read_body(body.bytes() + padding) == Some(body),
{
    let content = body.content();
    let seq = body.seq();
    let kind = body.kind();
    lemma_read_content(body, padding);
    lemma_read_start(kind, seq, content, padding);
}

/// The kind and the sequence number are read back from the start of a plaintext.
proof fn lemma_read_start(kind: u8, seq: u64, content: Seq<u8>, padding: Seq<u8>)
    ensures
        ({
            let p = (seq![kind] + (be64(seq) + content)) + padding;
            &&& p.len() >= 9
            &&& p[0] == kind
            &&& from_be64(p.skip(1)) == seq
            &&& p.skip(9) == content + padding
        }),
{
    let p = (seq![kind] + (be64(seq) + content)) + padding;
    assert(p.skip(1) =~= be64(seq) + (content + padding));
    lemma_be64(seq, content + padding);
    assert(p.skip(9) =~= content + padding);
}

/// Decrypting a packet of a session gives back the header and the body that were
/// encrypted. A field too long for its length prefix is the one exception.
pub proof fn law_decryption_returns_body(
    pkt: DataPacket,
    body: Body,
    dst_peer_id: u32,
    session_id: u32,
    network_key: Seq<u8>,
    session_key: Seq<u8>,
)
    requires
        pkt.carries(body, dst_peer_id, session_id, network_key, session_key),
        body.fits(),
    ensures
        decrypted(pkt.wire(), network_key, session_key) == Some(
            (session_header(body.kind(), dst_peer_id, session_id), body),
        ),
{
    let header = session_header(body.kind(), dst_peer_id, session_id);
    let padding = choose|padding: Seq<u8>|
        {
            &&& padding.len() < PADDING_LIMIT
            &&& pkt.seals(header, #[trigger] (body.bytes() + padding), network_key, packet_key_of(session_key))
        };
    law_sealed_packet_opens(pkt, header, body.bytes() + padding, network_key, packet_key_of(session_key));
    law_body_survives_encoding(body, padding);
}

/// Sixteen bytes hold a header exactly where they are its encoding and its kind is known.
pub proof fn law_header_is_its_encoding(bytes: Seq<u8>, header: NetworkHeader)
    requires
        bytes.len() == NETWORK_HEADER_LEN,
    ensures
        read_header(bytes) == Some(header) <==> header.bytes() == bytes && known_kind(header.kind),
        known_kind(header.kind) <==> 0x11 <= header.kind <= 0x13 || 0x21 <= header.kind <= 0x28,
{
    if known_kind(header.kind) {
        lemma_header_bytes(header);
    }
    if read_header(bytes) == Some(header) {
        lemma_from_be32(bytes.skip(4));
        lemma_from_be32(bytes.skip(8));
        assert(bytes.skip(4).take(4) =~= bytes.subrange(4, 8));
        assert(bytes.skip(8).take(4) =~= bytes.subrange(8, 12));
        assert(header.bytes() =~= bytes);
    }
}

/// Whether the packets in `sent` are all that open under `key`: the cipher resists forgery,
/// and `sent` holds what the holders of the key sealed.
pub open spec fn opens_only(key: Seq<u8>, sent: Set<Seq<u8>>) -> bool {
    forall|nonce: Seq<u8>, ciphertext: Seq<u8>, aad: Seq<u8>|
        nonce.len() == NONCE_LEN && aad.len() == AAD_LEN && #[trigger] aead_opened(key, nonce, ciphertext, aad) is Some
            ==> sent.contains(aad + nonce + ciphertext)
}

/// What opens under a key is a packet that a holder of the key sealed, byte for byte: the
/// mask nonce, the masked header, the nonce, the ciphertext and the tag.
pub proof fn law_packet_needs_its_maker(data: Seq<u8>, key: Seq<u8>, sent: Set<Seq<u8>>)
    requires
        opens_only(key, sent),
        data.len() >= MIN_PACKET_LEN,
        wire_opened(data, key) is Some,
    ensures
        sent.contains(data),
{
    assert(data.take(24) + wire_nonce(data) + wire_ciphertext(data) =~= data);
}

/// A packet is refused under a session key with which no one sealed it: one with any byte
/// changed, or one of another session.
pub proof fn law_changed_packet_is_refused(
    data: Seq<u8>,
    network_key: Seq<u8>,
    session_key: Seq<u8>,
    sent: Set<Seq<u8>>,
)
    requires
        opens_only(packet_key_of(session_key), sent),
        !sent.contains(data),
    ensures
        decrypted(data, network_key, session_key) is None,
{
    if decrypted(data, network_key, session_key) is Some {
        law_packet_needs_its_maker(data, packet_key_of(session_key), sent);
    }
}

/// The two directions of a session take their keys from different inputs.
pub proof fn law_traffic_key_inputs_differ(session_key: Seq<u8>, a: u32, b: u32)
    requires
        a != b,
    ensures
        session_key + be32(a) + be32(b) != session_key + be32(b) + be32(a),
{
    let x = session_key + be32(a) + be32(b);
    let y = session_key + be32(b) + be32(a);
    assert(x.skip(session_key.len() as int) =~= be32(a) + be32(b));
    assert(y.skip(session_key.len() as int) =~= be32(b) + be32(a));
    lemma_be32(a, be32(b));
    lemma_be32(b, be32(a));
}

} // verus!
