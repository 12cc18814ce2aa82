//! The handshake: two signed messages from which both sides derive a session key.
pub mod arrival;
pub mod refusals;

use crate::bytes::{
    array_from, be16, be32, be64, field, from_be16, from_be32, from_be64, lemma_be16, lemma_be32, lemma_be64,
    lemma_field, put_slice, put_u16, put_u32, put_u64, put_vec_u32, read_field, same_bytes, to_vec, Reader,
};
use crate::cert::{CaVerifyKey, Cert, NodeSigningSecretKey};
use crate::clock::unix_time_secs;
use crate::crypto::aead::PLAINTEXT_LIMIT;
use crate::crypto::hybrid_kem::{
    decapsulate, decapsulated, encapsulated_from, ephemeral_from_seeds, is_encapsulation, law_exchange_agrees,
    mlkem768_decapsulated,
    mlkem768_encapsulated, mlkem768_public, mlkem768_valid, mlkem_pk_bytes, try_encapsulate, x25519_public, MlKemSecretKey,
    MLKEM_CT_LEN, MLKEM_PK_LEN, MLKEM_SK_LEN, X25519_PK_LEN,
};
use crate::crypto::hybrid_sig::{
    accepts, ed25519_neutral, ed25519_signature, hybrid_verify, is_degenerate, is_keypair, is_signature, mldsa65_signature, try_hybrid_sign,
    HybridSignature, HybridSigningKey, HybridVerifyKey, ED25519_SIG_LEN, MLDSA_SIG_LEN,
};
use crate::crypto::kdf::{blake3_derived, blake3_hash, blake3_hashed, derive_labeled_key};
use crate::crypto::random::{random_array, random_nonzero_u32};
use crate::crypto::{wipe, zeros, HYBRID_SHARED_SECRET_LEN, K_HEADER_LEN, NONCE_LEN, SESSION_KEY_LEN};
use crate::packet;
use crate::packet::{
    deserialize_packet, known_kind, law_sealed_packet_opens, law_wire_keeps_packet, network_header,
    open_with, random_padding, seal_with, serialize_packet, session_header, wire_header, wire_opened, DataPacket, NetworkHeader, MASK_NONCE_LEN,
    PADDING_LIMIT,
};
use vstd::prelude::*;

verus! {

pub const HANDSHAKE_VERSION: u8 = 2;

pub const KIND_HANDSHAKE_1: u8 = packet::KIND_HANDSHAKE_1;

pub const KIND_HANDSHAKE_2: u8 = packet::KIND_HANDSHAKE_2;

pub const KIND_HANDSHAKE_FRAG: u8 = packet::KIND_HANDSHAKE_FRAG;

pub const FLAG_RELAY: u16 = 0x0001;

pub const HANDSHAKE_MAX_CLOCK_SKEW_SECS: u64 = 300;

/// The bytes of a fragment's plaintext before its chunk: kind, message, index, total.
pub const FRAG_PREFIX_LEN: usize = 7;

/// The bytes of a handshake message before the key-agreement field.
pub const HELLO_PREFIX_LEN: usize = 64;

pub const TRANSCRIPT_LEN: usize = 32;

/// Why a handshake message was refused or could not be made.
#[derive(Debug, Clone, Copy, PartialEq, Eq, Structural)]
pub enum HandshakeError {
    /// The message is not of this network, or it was changed on the way.
    DecryptFailed,
    TooShort,
    WrongKind,
    UnsupportedVersion,
    ClockSkew,
    /// The message answers another one than was sent.
    TranscriptMismatch,
    FieldOutOfBounds,
    /// The certificate in the message cannot be read.
    CertDecode,
    /// The certificate is not good.
    CertInvalid,
    /// The message does not carry the signature of the certificate's owner.
    SignatureInvalid,
    InvalidPeerKey,
    /// The own message could not be signed.
    SigningFailed,
    /// The own message is too long to be encrypted.
    TooLarge,
}

/// What the initiator has of a finished handshake.
pub struct HandshakeResult {
    pub peer_cert: Cert,
    pub session_key: [u8; SESSION_KEY_LEN],
    pub peer_eph_x25519: [u8; X25519_PK_LEN],
    pub peer_is_relay: bool,
    pub my_rx_session_id: u32,
    pub peer_rx_session_id: u32,
}

/// A first message, and the secrets that the initiator keeps for the answer.
pub struct HandshakeInitiate {
    pub msg: Vec<u8>,
    pub eph_x25519_sk: [u8; X25519_PK_LEN],
    pub eph_mlkem_sk: MlKemSecretKey,
    pub my_rx_session_id: u32,
}

/// An answer, and what the responder has of the finished handshake.
pub struct HandshakeResponse {
    pub msg: Vec<u8>,
    pub session_key: [u8; SESSION_KEY_LEN],
    pub peer_cert: Cert,
    pub peer_is_relay: bool,
    pub my_rx_session_id: u32,
    pub peer_rx_session_id: u32,
}

impl HandshakeResult {
    /// Overwrites the session key.
    pub fn zeroize(&mut self)
        ensures
            final(self).session_key@ == zeros(SESSION_KEY_LEN as nat),
            *final(self) == (HandshakeResult { session_key: final(self).session_key, ..*old(self) }),
    {
        wipe(&mut self.session_key);
    }
}

impl HandshakeResponse {
    /// Overwrites the session key.
    pub fn zeroize(&mut self)
        ensures
            final(self).session_key@ == zeros(SESSION_KEY_LEN as nat),
            *final(self) == (HandshakeResponse { session_key: final(self).session_key, ..*old(self) }),
    {
        wipe(&mut self.session_key);
    }
}

impl HandshakeInitiate {
    /// Overwrites the secrets that were kept for the answer.
    pub fn zeroize(&mut self)
        ensures
            final(self).eph_x25519_sk@ == zeros(X25519_PK_LEN as nat),
            final(self).eph_mlkem_sk.seed@ == zeros(MLKEM_SK_LEN as nat),
            final(self).msg == old(self).msg,
            final(self).my_rx_session_id == old(self).my_rx_session_id,
    {
        wipe(&mut self.eph_x25519_sk);
        wipe(&mut self.eph_mlkem_sk.seed);
    }
}

/// The header that a handshake plaintext travels under. A fragment's message number,
/// index and total move into the header; every other message has its first byte as its
/// kind, and names a session of the receiver, or zero where there is none yet.
pub open spec fn handshake_header(plaintext: Seq<u8>, dst_peer_id: u32, session_id: u32) -> NetworkHeader {
    if plaintext.len() >= FRAG_PREFIX_LEN && plaintext[0] == KIND_HANDSHAKE_FRAG {
        NetworkHeader {
            kind: KIND_HANDSHAKE_FRAG,
            frag_index: plaintext[5],
            frag_total: plaintext[6],
            dst_peer_id,
            session_id: from_be32(plaintext.skip(1)),
        }
    } else {
        NetworkHeader {
            kind: if plaintext.len() == 0 {
                0
            } else {
                plaintext[0]
            },
            frag_index: 0,
            frag_total: 0,
            dst_peer_id,
            session_id,
        }
    }
}

/// What of a handshake plaintext is encrypted: all that the header does not hold.
pub open spec fn handshake_payload(plaintext: Seq<u8>) -> Seq<u8> {
    if plaintext.len() >= FRAG_PREFIX_LEN && plaintext[0] == KIND_HANDSHAKE_FRAG {
        plaintext.skip(FRAG_PREFIX_LEN as int)
    } else {
        plaintext
    }
}

/// Whether `msg` is the plaintext, sealed with the network key.
pub open spec fn is_sealed_handshake(
    msg: Seq<u8>,
    plaintext: Seq<u8>,
    dst_peer_id: u32,
    session_id: u32,
    network_key: Seq<u8>,
) -> bool {
    exists|pkt: DataPacket|
        {
            &&& msg == #[trigger] pkt.wire()
            &&& pkt.seals(
                handshake_header(plaintext, dst_peer_id, session_id),
                handshake_payload(plaintext),
                network_key,
                network_key,
            )
        }
}

/// The plaintext of a handshake message on the wire.
pub open spec fn opened_handshake(data: Seq<u8>, network_key: Seq<u8>) -> Option<Seq<u8>> {
    match (wire_header(data, network_key), wire_opened(data, network_key)) {
        (Some(header), Some(payload)) => if header.kind == KIND_HANDSHAKE_FRAG {
            if header.frag_index < header.frag_total {
                Some(
                    seq![KIND_HANDSHAKE_FRAG] + be32(header.session_id) + seq![header.frag_index, header.frag_total]
                        + payload,
                )
            } else {
                None
            }
        } else if header.frag_index == 0 && header.frag_total == 0 && payload.len() > 0 && payload[0] == header.kind {
            Some(payload)
        } else {
            None
        },
        _ => None,
    }
}

/// Splits a plaintext into its header and what is encrypted.
fn handshake_header_and_payload(plaintext: &[u8], dst_peer_id: u32, session_id: u32) -> (r: (NetworkHeader, &[u8]))
    ensures
        r.0 == handshake_header(plaintext@, dst_peer_id, session_id),
        r.1@ == handshake_payload(plaintext@),
{
    if plaintext.len() >= FRAG_PREFIX_LEN && plaintext[0] == KIND_HANDSHAKE_FRAG {
        let msg_id: u32 = plaintext[1] as u32 * 0x100_0000 + plaintext[2] as u32 * 0x1_0000 + plaintext[3] as u32
            * 0x100 + plaintext[4] as u32;
        let header = NetworkHeader {
            kind: KIND_HANDSHAKE_FRAG,
            frag_index: plaintext[5],
            frag_total: plaintext[6],
            dst_peer_id,
            session_id: msg_id,
        };
        let payload = vstd::slice::slice_subrange(plaintext, FRAG_PREFIX_LEN, plaintext.len());
        assert(payload@ =~= handshake_payload(plaintext@));
        return (header, payload);
    }
    let kind: u8 = if plaintext.len() == 0 { 0 } else { plaintext[0] };
    (NetworkHeader { kind, frag_index: 0, frag_total: 0, dst_peer_id, session_id }, plaintext)
}

/// Seals a handshake message for anyone in the network.
pub fn seal_handshake(network_key: &[u8; K_HEADER_LEN], plaintext: &[u8]) -> (r: Vec<u8>)
    requires
        handshake_payload(plaintext@).len() < PLAINTEXT_LIMIT,
    ensures
        is_sealed_handshake(r@, plaintext@, 0, 0, network_key@),
{
    seal_handshake_with(network_key, plaintext, 0, 0, random_array(), random_array())
}

/// Seals a handshake message that a relay passes on to a peer.
pub fn seal_handshake_to_peer(network_key: &[u8; K_HEADER_LEN], plaintext: &[u8], dst_peer_id: u32) -> (r: Vec<u8>)
    requires
        handshake_payload(plaintext@).len() < PLAINTEXT_LIMIT,
    ensures
        is_sealed_handshake(r@, plaintext@, dst_peer_id, 0, network_key@),
{
    seal_handshake_with(network_key, plaintext, dst_peer_id, 0, random_array(), random_array())
}

/// Seals a handshake message that names a session of its receiver, with given nonces.
pub fn seal_handshake_with(
    network_key: &[u8; K_HEADER_LEN],
    plaintext: &[u8],
    dst_peer_id: u32,
    session_id: u32,
    mask_nonce: [u8; MASK_NONCE_LEN],
    nonce: [u8; NONCE_LEN],
) -> (r: Vec<u8>)
    requires
        handshake_payload(plaintext@).len() < PLAINTEXT_LIMIT,
    ensures
        is_sealed_handshake(r@, plaintext@, dst_peer_id, session_id, network_key@),
        r@.take(MASK_NONCE_LEN as int) == mask_nonce@,
        r@.subrange(24, 36) == nonce@,
{
    let (header, payload) = handshake_header_and_payload(plaintext, dst_peer_id, session_id);
    let pkt = seal_with(header, payload, network_key, network_key, mask_nonce, nonce);
    proof {
        law_wire_keeps_packet(pkt);
        assert(pkt.wire().take(MASK_NONCE_LEN as int) =~= mask_nonce@);
    }
    serialize_packet(&pkt)
}

/// Opens a handshake message: the plaintext that was sealed, with a fragment's number,
/// index and total put back in front of its chunk.
pub fn open_handshake(network_key: &[u8; K_HEADER_LEN], data: &[u8]) -> (r: Option<Vec<u8>>)
    ensures
        r is Some == opened_handshake(data@, network_key@) is Some,
        r matches Some(p) ==> opened_handshake(data@, network_key@) == Some(p@),
{
    let pkt = deserialize_packet(data)?;
    let header = network_header(data, network_key)?;
    let plaintext = open_with(&pkt, network_key)?;
    if header.kind == KIND_HANDSHAKE_FRAG {
        if header.frag_total == 0 || header.frag_index >= header.frag_total {
            return None;
        }
        let mut out: Vec<u8> = Vec::new();
        out.push(KIND_HANDSHAKE_FRAG);
        put_u32(&mut out, header.session_id);
        out.push(header.frag_index);
        out.push(header.frag_total);
        put_slice(&mut out, plaintext.as_slice());
        assert(out@ =~= opened_handshake(data@, network_key@)->0);
        Some(out)
    } else {
        if header.frag_index != 0 || header.frag_total != 0 {
            return None;
        }
        if plaintext.len() == 0 || plaintext[0] != header.kind {
            return None;
        }
        Some(plaintext)
    }
}

/// The kind of a handshake message or a packet on the wire.
pub fn handshake_kind(data: &[u8], network_key: &[u8; K_HEADER_LEN]) -> (r: Option<u8>)
    ensures
        r is Some == wire_header(data@, network_key@) is Some,
        r matches Some(kind) ==> kind == wire_header(data@, network_key@)->0.kind,
{
    match network_header(data, network_key) {
        Some(header) => Some(header.kind),
        None => None,
    }
}

/// Whether a plaintext can travel as a handshake message: its kind is known, and a
/// fragment has its whole prefix, with an index below its total.
pub open spec fn well_framed(plaintext: Seq<u8>) -> bool {
    &&& plaintext.len() > 0
    &&& known_kind(plaintext[0])
    &&& plaintext[0] == KIND_HANDSHAKE_FRAG ==> plaintext.len() >= FRAG_PREFIX_LEN && plaintext[5] < plaintext[6]
}

/// Opening a sealed handshake message gives back the plaintext, and its header can be
/// read, for every plaintext that is well framed.
pub proof fn law_sealed_handshake_opens(
    msg: Seq<u8>,
    plaintext: Seq<u8>,
    dst_peer_id: u32,
    session_id: u32,
    network_key: Seq<u8>,
)
    requires
        is_sealed_handshake(msg, plaintext, dst_peer_id, session_id, network_key),
        well_framed(plaintext),
    ensures
        opened_handshake(msg, network_key) == Some(plaintext),
        wire_header(msg, network_key) == Some(handshake_header(plaintext, dst_peer_id, session_id)),
{
    let header = handshake_header(plaintext, dst_peer_id, session_id);
    let payload = handshake_payload(plaintext);
    let pkt = choose|pkt: DataPacket|
        msg == #[trigger] pkt.wire() && pkt.seals(header, payload, network_key, network_key);
    law_sealed_packet_opens(pkt, header, payload, network_key, network_key);
    if plaintext[0] == KIND_HANDSHAKE_FRAG {
        crate::bytes::lemma_from_be32(plaintext.skip(1));
        assert(plaintext.skip(1).take(4) =~= plaintext.subrange(1, 5));
        assert(opened_handshake(msg, network_key)->0 =~= plaintext);
    }
}

/// The fields of a handshake message, up to the signature. `kem` is the initiator's
/// ML-KEM key or the responder's ciphertext; `transcript` is empty in the first message
/// and the hash of the first message in the second.
pub struct Hello {
    pub kind: u8,
    pub flags: u16,
    pub timestamp: u64,
    pub random: Seq<u8>,
    pub rx_session_id: u32,
    pub eph_x25519_pk: Seq<u8>,
    pub kem: Seq<u8>,
    pub transcript: Seq<u8>,
    pub cert: Seq<u8>,
}

impl Hello {
    /// Whether the fields of fixed length have it.
    pub open spec fn sized(self, kem_len: nat, transcript_len: nat) -> bool {
        &&& self.random.len() == 16
        &&& self.eph_x25519_pk.len() == X25519_PK_LEN
        &&& self.kem.len() == kem_len
        &&& self.transcript.len() == transcript_len
    }

    /// The fields before the certificate, which is what the signature covers first.
    pub open spec fn prefix(self) -> Seq<u8> {
        seq![self.kind, HANDSHAKE_VERSION] + be16(self.flags) + be64(self.timestamp) + self.random + be32(
            self.rx_session_id,
        ) + self.eph_x25519_pk + self.kem + self.transcript
    }

    /// What the signature of the message covers.
    pub open spec fn signed(self) -> Seq<u8> {
        self.prefix() + field(self.cert)
    }

    /// Whether the sender says that it relays.
    pub open spec fn is_relay(self) -> bool {
        self.flags % 2 == 1
    }
}

/// The fields before the certificate of a message with the given lengths.
pub open spec fn read_hello(p: Seq<u8>, kem_len: nat, transcript_len: nat, cert: Seq<u8>) -> Hello {
    let kem_end = HELLO_PREFIX_LEN + kem_len;
    Hello {
        kind: p[0],
        flags: from_be16(p.skip(2)),
        timestamp: from_be64(p.skip(4)),
        random: p.subrange(12, 28),
        rx_session_id: from_be32(p.skip(28)),
        eph_x25519_pk: p.subrange(32, 64),
        kem: p.subrange(64, kem_end as int),
        transcript: p.subrange(kem_end as int, (kem_end + transcript_len) as int),
        cert,
    }
}

/// The signature at the start of `s`.
pub open spec fn read_signature(s: Seq<u8>, sig: HybridSignature) -> bool {
    &&& sig.ed25519@ == s.take(ED25519_SIG_LEN as int)
    &&& sig.ml_dsa@ == s.subrange(ED25519_SIG_LEN as int, ED25519_SIG_LEN + MLDSA_SIG_LEN)
}

/// What is wrong with a message before its certificate is looked at.
pub open spec fn prefix_error(p: Seq<u8>, kind: u8, kem_len: nat, transcript: Seq<u8>, now: u64) -> Option<HandshakeError> {
    let cert_at = HELLO_PREFIX_LEN + kem_len + transcript.len();
    if p.len() < cert_at + 4 + ED25519_SIG_LEN + MLDSA_SIG_LEN {
        Some(HandshakeError::TooShort)
    } else if p[0] != kind {
        Some(HandshakeError::WrongKind)
    } else if p[1] != HANDSHAKE_VERSION {
        Some(HandshakeError::UnsupportedVersion)
    } else if !timely(from_be64(p.skip(4)), now) {
        Some(HandshakeError::ClockSkew)
    } else if p.subrange(HELLO_PREFIX_LEN + kem_len, cert_at as int) != transcript {
        Some(HandshakeError::TranscriptMismatch)
    } else {
        None
    }
}

/// Whether a message's time is within the allowed skew of the own clock.
pub open spec fn timely(timestamp: u64, now: u64) -> bool {
    now - HANDSHAKE_MAX_CLOCK_SKEW_SECS <= timestamp <= now + HANDSHAKE_MAX_CLOCK_SKEW_SECS
}

/// What is wrong with a message whose part before the certificate is right; `peer_cert`
/// is what its certificate field reads as.
pub open spec fn suffix_error(
    p: Seq<u8>,
    cert_at: int,
    peer_cert: Option<Cert>,
    ca_vk: CaVerifyKey,
    now: u64,
) -> Option<HandshakeError> {
    match read_field(p.skip(cert_at)) {
        None => Some(HandshakeError::FieldOutOfBounds),
        Some((cert, rest)) => match peer_cert {
            None => Some(HandshakeError::CertDecode),
            Some(peer) => if rest.len() < ED25519_SIG_LEN + MLDSA_SIG_LEN {
                Some(HandshakeError::FieldOutOfBounds)
            } else if !peer.valid_at(ca_vk, now as int) {
                Some(HandshakeError::CertInvalid)
            } else if !signed_by(peer, p.take(cert_at + 4 + cert.len()), rest) {
                Some(HandshakeError::SignatureInvalid)
            } else {
                None
            },
        },
    }
}

/// Whether the bytes at the start of `rest` are a signature on `signed` that the keys of
/// the certificate accept.
pub open spec fn signed_by(peer: Cert, signed: Seq<u8>, rest: Seq<u8>) -> bool {
    exists|sig: HybridSignature|
        #[trigger] read_signature(rest, sig) && accepts(peer.body.keys.hybrid(), signed, sig)
}

/// What is wrong with a handshake message of the given kind whose ML-KEM field has the
/// given length and which must carry `transcript`: `None` where it is accepted.
pub open spec fn hello_error(
    p: Seq<u8>,
    kind: u8,
    kem_len: nat,
    transcript: Seq<u8>,
    peer_cert: Option<Cert>,
    ca_vk: CaVerifyKey,
    now: u64,
) -> Option<HandshakeError> {
    match prefix_error(p, kind, kem_len, transcript, now) {
        Some(e) => Some(e),
        None => suffix_error(p, HELLO_PREFIX_LEN + kem_len + transcript.len(), peer_cert, ca_vk, now),
    }
}

/// The certificate field of a handshake message, as far as it can be found.
pub open spec fn cert_field(p: Seq<u8>) -> Option<Seq<u8>> {
    if p.len() == 0 || p[0] != KIND_HANDSHAKE_1 && p[0] != KIND_HANDSHAKE_2 {
        None
    } else {
        let cert_at = if p[0] == KIND_HANDSHAKE_1 {
            HELLO_PREFIX_LEN + MLKEM_PK_LEN
        } else {
            HELLO_PREFIX_LEN + MLKEM_CT_LEN + TRANSCRIPT_LEN
        };
        if p.len() < cert_at {
            None
        } else {
            match read_field(p.skip(cert_at as int)) {
                Some((cert, _)) => Some(cert),
                None => None,
            }
        }
    }
}

/// The fields of a parsed message that the handshake goes on with.
struct ParsedHello {
    flags: u16,
    rx_session_id: u32,
    eph_x25519_pk: [u8; X25519_PK_LEN],
    kem: Vec<u8>,
}

/// Whether a time is within the allowed skew of the own clock.
fn validate_timestamp(timestamp: u64, now: u64) -> (r: bool)
    ensures
        r == timely(timestamp, now),
{
    let min: u64 = now.saturating_sub(HANDSHAKE_MAX_CLOCK_SKEW_SECS);
    let max: u64 = now.saturating_add(HANDSHAKE_MAX_CLOCK_SKEW_SECS);
    min <= timestamp && timestamp <= max
}

/// Reads and checks a handshake message.
fn parse_hello(
    data: &[u8],
    kind: u8,
    kem_len: usize,
    transcript: &[u8],
    peer_cert: &Option<Cert>,
    ca_vk: &CaVerifyKey,
    now: u64,
) -> (r: Result<ParsedHello, HandshakeError>)
    requires
        kem_len <= 4096,
        transcript@.len() <= 4096,
    ensures
        r is Err == hello_error(data@, kind, kem_len as nat, transcript@, *peer_cert, *ca_vk, now) is Some,
        r matches Err(e) ==> hello_error(data@, kind, kem_len as nat, transcript@, *peer_cert, *ca_vk, now) == Some(e),
        r matches Ok(h) ==> {
            let hello = read_hello(data@, kem_len as nat, transcript@.len(), Seq::empty());
            &&& h.flags == hello.flags
            &&& h.rx_session_id == hello.rx_session_id
            &&& h.eph_x25519_pk@ == hello.eph_x25519_pk
            &&& h.kem@ == hello.kem
        },
{
    let cert_at: usize = HELLO_PREFIX_LEN + kem_len + transcript.len();
    if data.len() < cert_at + 4 + ED25519_SIG_LEN + MLDSA_SIG_LEN {
        return Err(HandshakeError::TooShort);
    }
    if data[0] != kind {
        return Err(HandshakeError::WrongKind);
    }
    if data[1] != HANDSHAKE_VERSION {
        return Err(HandshakeError::UnsupportedVersion);
    }
    let ghost hello = read_hello(data@, kem_len as nat, transcript@.len(), Seq::empty());
    let mut rd = Reader::new(data);
    let bounds = HandshakeError::FieldOutOfBounds;
    let _head = match rd.bytes(2) { Some(b) => b, None => return Err(bounds) };
    let flags: u16 = match rd.u16() { Some(x) => x, None => return Err(bounds) };
    assert(rd@ =~= data@.skip(4));
    let timestamp: u64 = match rd.u64() { Some(x) => x, None => return Err(bounds) };
    if !validate_timestamp(timestamp, now) {
        return Err(HandshakeError::ClockSkew);
    }
    assert(rd@ =~= data@.skip(12));
    let _random = match rd.bytes(16) { Some(b) => b, None => return Err(bounds) };
    assert(rd@ =~= data@.skip(28));
    let rx_session_id: u32 = match rd.u32() { Some(x) => x, None => return Err(bounds) };
    assert(rd@ =~= data@.skip(32));
    let eph_x25519_pk: [u8; X25519_PK_LEN] = match rd.array() { Some(x) => x, None => return Err(bounds) };
    assert(eph_x25519_pk@ =~= hello.eph_x25519_pk);
    assert(rd@ =~= data@.skip(64));
    let kem = match rd.bytes(kem_len) { Some(b) => to_vec(b), None => return Err(bounds) };
    assert(kem@ =~= hello.kem);
    assert(rd@ =~= data@.skip(64 + kem_len));
    let found = match rd.bytes(transcript.len()) { Some(b) => b, None => return Err(bounds) };
    assert(found@ =~= data@.subrange(HELLO_PREFIX_LEN + kem_len, cert_at as int));
    if !same_bytes(found, transcript) {
        return Err(HandshakeError::TranscriptMismatch);
    }
    assert(rd@ =~= data@.skip(cert_at as int));
    let cert_bytes = match rd.vec_u32() { Some(b) => b, None => return Err(bounds) };
    let cert = match peer_cert { Some(cert) => cert, None => return Err(HandshakeError::CertDecode) };
    let ghost rest = rd@;
    let signed = vstd::slice::slice_subrange(data, 0, rd.pos());
    assert(signed@ =~= data@.take(cert_at + 4 + cert_bytes@.len()));
    let ed25519: [u8; ED25519_SIG_LEN] = match rd.array() { Some(x) => x, None => return Err(bounds) };
    let ml_dsa: [u8; MLDSA_SIG_LEN] = match rd.array() { Some(x) => x, None => return Err(bounds) };
    let sig = HybridSignature { ed25519, ml_dsa };
    assert(sig.ml_dsa@ =~= rest.subrange(ED25519_SIG_LEN as int, ED25519_SIG_LEN + MLDSA_SIG_LEN));
    assert(read_signature(rest, sig));
    match verify_peer_cert_and_sig(cert, ca_vk, signed, sig, now) {
        Ok(()) => {},
        Err(e) => {
            proof {
                lemma_signature_is_unique(rest, sig);
            }
            return Err(e);
        },
    }
    Ok(ParsedHello { flags, rx_session_id, eph_x25519_pk, kem })
}

/// Bytes hold one signature.
proof fn lemma_signature_is_unique(rest: Seq<u8>, sig: HybridSignature)
    requires
        read_signature(rest, sig),
    ensures
        forall|other: HybridSignature| #[trigger] read_signature(rest, other) ==> other == sig,
{
    assert forall|other: HybridSignature| #[trigger] read_signature(rest, other) implies other == sig by {
        assert(other.ed25519 =~= sig.ed25519);
        assert(other.ml_dsa =~= sig.ml_dsa);
    }
}

/// Checks the certificate of a peer, and the peer's signature.
fn verify_peer_cert_and_sig(
    cert: &Cert,
    ca_vk: &CaVerifyKey,
    signed: &[u8],
    sig: HybridSignature,
    now: u64,
) -> (r: Result<(), HandshakeError>)
    ensures
        r == (if !cert.valid_at(*ca_vk, now as int) {
            Err(HandshakeError::CertInvalid)
        } else if !accepts(cert.body.keys.hybrid(), signed@, sig) {
            Err(HandshakeError::SignatureInvalid)
        } else {
            Ok(())
        }),
{
    if !cert.verify_at(ca_vk, now) {
        return Err(HandshakeError::CertInvalid);
    }
    let vk = HybridVerifyKey { ed25519: cert.body.keys.ed25519_pk, ml_dsa: cert.body.keys.ml_dsa_pk };
    if !hybrid_verify(&vk, signed, &sig) {
        return Err(HandshakeError::SignatureInvalid);
    }
    Ok(())
}

/// The bytes of the certificate in a handshake message on the wire, to be read before the
/// message is processed; `None` where the message does not open or holds no such field.
pub fn handshake_cert_bytes(data: &[u8], network_key: &[u8; K_HEADER_LEN]) -> (r: Option<Vec<u8>>)
    ensures
        r is Some == (opened_handshake(data@, network_key@) is Some && cert_field(
            opened_handshake(data@, network_key@)->0,
        ) is Some),
        r matches Some(bytes) ==> cert_field(opened_handshake(data@, network_key@)->0) == Some(bytes@),
{
    let plaintext = open_handshake(network_key, data)?;
    if plaintext[0] != KIND_HANDSHAKE_1 && plaintext[0] != KIND_HANDSHAKE_2 {
        return None;
    }
    let cert_at: usize = if plaintext[0] == KIND_HANDSHAKE_1 {
        HELLO_PREFIX_LEN + MLKEM_PK_LEN
    } else {
        HELLO_PREFIX_LEN + MLKEM_CT_LEN + TRANSCRIPT_LEN
    };
    let mut rd = Reader::new(plaintext.as_slice());
    let _before = rd.bytes(cert_at)?;
    let cert = to_vec(rd.vec_u32()?);
    Some(cert)
}

/// The session key of a hybrid secret and the two messages of a handshake.
pub open spec fn session_v2(hybrid_ss: Seq<u8>, hs1_msg: Seq<u8>, hs2_msg: Seq<u8>) -> Seq<u8> {
    blake3_derived("liteway-session-v2"@, hybrid_ss + blake3_hashed(hs1_msg) + blake3_hashed(hs2_msg))
}

/// Derives the session key, bound to both messages of the handshake.
fn derive_session_v2(
    hybrid_ss: &[u8; HYBRID_SHARED_SECRET_LEN],
    hs1_msg: &[u8],
    hs2_msg: &[u8],
) -> (r: [u8; SESSION_KEY_LEN])
    ensures
        r@ == session_v2(hybrid_ss@, hs1_msg@, hs2_msg@),
{
    let mut input: Vec<u8> = Vec::with_capacity(HYBRID_SHARED_SECRET_LEN + 64);
    put_slice(&mut input, hybrid_ss);
    put_slice(&mut input, &blake3_hash(hs1_msg));
    put_slice(&mut input, &blake3_hash(hs2_msg));
    assert(input@ =~= hybrid_ss@ + blake3_hashed(hs1_msg@) + blake3_hashed(hs2_msg@));
    let key = derive_labeled_key("liteway-session-v2", input.as_slice());
    wipe(input.as_mut_slice());
    key
}

/// The random values of one handshake message.
pub struct HandshakeDraws {
    pub rx_session_id: u32,
    pub random: [u8; 16],
    pub padding: Vec<u8>,
    pub mask_nonce: [u8; MASK_NONCE_LEN],
    pub nonce: [u8; NONCE_LEN],
}

/// Draws the random values of a handshake message. No session has the number zero.
fn draw() -> (r: HandshakeDraws)
    ensures
        r.rx_session_id != 0,
        r.padding@.len() < PADDING_LIMIT,
{
    HandshakeDraws {
        rx_session_id: random_nonzero_u32(),
        random: random_array(),
        padding: random_padding(),
        mask_nonce: random_array(),
        nonce: random_array(),
    }
}

/// The plaintext of a handshake message: its signed part, the signature, and padding.
pub open spec fn hello_plaintext(hello: Hello, sig: HybridSignature, padding: Seq<u8>) -> Seq<u8> {
    hello.signed() + sig.ed25519@ + sig.ml_dsa@ + padding
}

/// Whether `msg` is the message with the fields of `hello`, signed with `sk`, sealed for
/// anyone in the network, under a header that names the session `session_id`.
pub open spec fn is_hello_message(
    msg: Seq<u8>,
    hello: Hello,
    sk: HybridSigningKey,
    padding: Seq<u8>,
    session_id: u32,
    network_key: Seq<u8>,
) -> bool {
    exists|sig: HybridSignature|
        {
            &&& is_signature(sk, hello.signed(), sig)
            &&& is_sealed_handshake(msg, #[trigger] hello_plaintext(hello, sig, padding), 0, session_id, network_key)
        }
}

/// Why a message cannot be made: ML-DSA finds no signature on its signed part, or it is
/// too long to be encrypted.
pub open spec fn send_error(signed: Seq<u8>, ml_dsa_seed: Seq<u8>, padding_len: nat) -> Option<HandshakeError> {
    if mldsa65_signature(ml_dsa_seed, signed) is None {
        Some(HandshakeError::SigningFailed)
    } else if signed.len() + ED25519_SIG_LEN + MLDSA_SIG_LEN + padding_len >= PLAINTEXT_LIMIT {
        Some(HandshakeError::TooLarge)
    } else {
        None
    }
}

/// The flags of a node that relays or does not.
pub open spec fn flags_of(relay_flag: bool) -> u16 {
    if relay_flag {
        FLAG_RELAY
    } else {
        0
    }
}

/// Writes the part of a handshake message that is signed.
fn put_hello(
    kind: u8,
    relay_flag: bool,
    timestamp: u64,
    draws: &HandshakeDraws,
    eph_x25519_pk: &[u8; X25519_PK_LEN],
    kem: &[u8],
    transcript: &[u8],
    cert: &Cert,
) -> (r: Vec<u8>)
    ensures
        r@ == (Hello {
            kind,
            flags: flags_of(relay_flag),
            timestamp,
            random: draws.random@,
            rx_session_id: draws.rx_session_id,
            eph_x25519_pk: eph_x25519_pk@,
            kem: kem@,
            transcript: transcript@,
            cert: cert.json(),
        }).signed(),
{
    let flags: u16 = if relay_flag { FLAG_RELAY } else { 0 };
    let mut signed: Vec<u8> = Vec::new();
    signed.push(kind);
    signed.push(HANDSHAKE_VERSION);
    assert(signed@ =~= seq![kind, HANDSHAKE_VERSION]);
    put_u16(&mut signed, flags);
    put_u64(&mut signed, timestamp);
    put_slice(&mut signed, &draws.random);
    put_u32(&mut signed, draws.rx_session_id);
    put_slice(&mut signed, eph_x25519_pk);
    put_slice(&mut signed, kem);
    put_slice(&mut signed, transcript);
    let cert_bytes = cert.to_bytes();
    put_vec_u32(&mut signed, cert_bytes.as_slice());
    signed
}

/// Signs and seals a handshake message.
fn sign_and_seal(
    Ghost(hello): Ghost<Hello>,
    signed: Vec<u8>,
    my_signing_key: &NodeSigningSecretKey,
    network_key: &[u8; K_HEADER_LEN],
    draws: &HandshakeDraws,
    session_id: u32,
) -> (r: Result<Vec<u8>, HandshakeError>)
    requires
        signed@ == hello.signed(),
    ensures
        r is Err == send_error(hello.signed(), my_signing_key.ml_dsa_seed@, draws.padding@.len()) is Some,
        r matches Err(e) ==> send_error(hello.signed(), my_signing_key.ml_dsa_seed@, draws.padding@.len()) == Some(e),
        r matches Ok(msg) ==> is_hello_message(
            msg@,
            hello,
            my_signing_key.hybrid(),
            draws.padding@,
            session_id,
            network_key@,
        ),
{
    let sig = match sign_node(my_signing_key, signed.as_slice()) {
        Some(sig) => sig,
        None => return Err(HandshakeError::SigningFailed),
    };
    let mut plaintext = signed;
    put_slice(&mut plaintext, &sig.ed25519);
    put_slice(&mut plaintext, &sig.ml_dsa);
    put_slice(&mut plaintext, draws.padding.as_slice());
    assert(plaintext@ == hello_plaintext(hello, sig, draws.padding@));
    if plaintext.len() as u64 >= PLAINTEXT_LIMIT {
        return Err(HandshakeError::TooLarge);
    }
    Ok(seal_handshake_with(network_key, plaintext.as_slice(), 0, session_id, draws.mask_nonce, draws.nonce))
}

fn sign_node(sk: &NodeSigningSecretKey, msg: &[u8]) -> (r: Option<HybridSignature>)
    ensures
        r is Some == mldsa65_signature(sk.ml_dsa_seed@, msg@) is Some,
        r matches Some(sig) ==> is_signature(sk.hybrid(), msg@, sig),
{
    let sk = HybridSigningKey { ed25519: sk.ed25519, ml_dsa_seed: sk.ml_dsa_seed };
    try_hybrid_sign(&sk, msg)
}

/// The fields of the first message of an initiator with the given secrets.
pub open spec fn first_hello(
    my_cert: Cert,
    relay_flag: bool,
    eph_x25519_sk: Seq<u8>,
    mlkem_seed: Seq<u8>,
    rx_session_id: u32,
    random: Seq<u8>,
    now: u64,
) -> Hello {
    Hello {
        kind: KIND_HANDSHAKE_1,
        flags: flags_of(relay_flag),
        timestamp: now,
        random,
        rx_session_id,
        eph_x25519_pk: x25519_public(eph_x25519_sk),
        kem: mlkem768_public(mlkem_seed),
        transcript: Seq::empty(),
        cert: my_cert.json(),
    }
}

/// Whether `init` is a first message of the given certificate's owner, with the secrets
/// that belong to it.
pub open spec fn is_initiation(
    init: HandshakeInitiate,
    my_cert: Cert,
    sk: HybridSigningKey,
    network_key: Seq<u8>,
    relay_flag: bool,
    now: u64,
    random: Seq<u8>,
    padding: Seq<u8>,
) -> bool {
    let hello = first_hello(
        my_cert,
        relay_flag,
        init.eph_x25519_sk@,
        init.eph_mlkem_sk.seed@,
        init.my_rx_session_id,
        random,
        now,
    );
    &&& hello.sized(MLKEM_PK_LEN as nat, 0)
    &&& mlkem768_valid(hello.kem)
    &&& is_hello_message(init.msg@, hello, sk, padding, 0, network_key)
}

/// Why the first message of an initiator with the given secrets cannot be made.
pub open spec fn first_send_error(
    my_cert: Cert,
    relay_flag: bool,
    eph_x25519_sk: Seq<u8>,
    mlkem_seed: Seq<u8>,
    rx_session_id: u32,
    random: Seq<u8>,
    now: u64,
    my_signing_key: NodeSigningSecretKey,
    padding_len: nat,
) -> Option<HandshakeError> {
    send_error(
        first_hello(my_cert, relay_flag, eph_x25519_sk, mlkem_seed, rx_session_id, random, now).signed(),
        my_signing_key.ml_dsa_seed@,
        padding_len,
    )
}

/// Starts a handshake: makes the first message, and the secrets for the answer to it.
pub fn create_handshake_1(
    my_cert: &Cert,
    my_signing_key: &NodeSigningSecretKey,
    network_key: &[u8; K_HEADER_LEN],
    relay_flag: bool,
) -> (r: Result<HandshakeInitiate, HandshakeError>)
    ensures
        r matches Ok(init) ==> {
            &&& init.my_rx_session_id != 0
            &&& exists|now: u64, random: Seq<u8>, padding: Seq<u8>|
                padding.len() < PADDING_LIMIT && #[trigger] is_initiation(
                    init,
                    *my_cert,
                    my_signing_key.hybrid(),
                    network_key@,
                    relay_flag,
                    now,
                    random,
                    padding,
                )
        },
        r matches Err(e) ==> exists|sk: Seq<u8>, seed: Seq<u8>, id: u32, random: Seq<u8>, now: u64, n: nat|
            {
                let hello = first_hello(*my_cert, relay_flag, sk, seed, id, random, now);
                &&& sk.len() == X25519_PK_LEN
                &&& seed.len() == MLKEM_SK_LEN
                &&& id != 0
                &&& hello.sized(MLKEM_PK_LEN as nat, 0)
                &&& n < PADDING_LIMIT
                &&& #[trigger] first_send_error(*my_cert, relay_flag, sk, seed, id, random, now, *my_signing_key, n)
                    == Some(e)
            },
{
    let eph_x25519_sk: [u8; X25519_PK_LEN] = random_array();
    let mlkem_seed: [u8; MLKEM_SK_LEN] = random_array();
    let draws = draw();
    let ghost drawn = draws;
    let now: u64 = unix_time_secs();
    let r = create_handshake_1_with(
        my_cert,
        my_signing_key,
        network_key,
        relay_flag,
        eph_x25519_sk,
        mlkem_seed,
        draws,
        now,
    );
    assert(r is Err ==> first_send_error(
        *my_cert,
        relay_flag,
        eph_x25519_sk@,
        mlkem_seed@,
        drawn.rx_session_id,
        drawn.random@,
        now,
        *my_signing_key,
        drawn.padding@.len(),
    ) == Some(r->Err_0));
    r
}

/// `create_handshake_1` with given secrets and random values at a given time.
pub fn create_handshake_1_with(
    my_cert: &Cert,
    my_signing_key: &NodeSigningSecretKey,
    network_key: &[u8; K_HEADER_LEN],
    relay_flag: bool,
    eph_x25519_sk: [u8; X25519_PK_LEN],
    mlkem_seed: [u8; MLKEM_SK_LEN],
    draws: HandshakeDraws,
    now: u64,
) -> (r: Result<HandshakeInitiate, HandshakeError>)
    ensures
        ({
            let hello = first_hello(
                *my_cert,
                relay_flag,
                eph_x25519_sk@,
                mlkem_seed@,
                draws.rx_session_id,
                draws.random@,
                now,
            );
            let error = send_error(hello.signed(), my_signing_key.ml_dsa_seed@, draws.padding@.len());
            &&& hello.sized(MLKEM_PK_LEN as nat, 0)
            &&& r is Err == error is Some
            &&& r matches Err(e) ==> error == Some(e)
            &&& r matches Ok(init) ==> {
                &&& init.eph_x25519_sk == eph_x25519_sk
                &&& init.eph_mlkem_sk.seed == mlkem_seed
                &&& init.my_rx_session_id == draws.rx_session_id
                &&& is_initiation(
                    init,
                    *my_cert,
                    my_signing_key.hybrid(),
                    network_key@,
                    relay_flag,
                    now,
                    draws.random@,
                    draws.padding@,
                )
            }
        }),
{
    let (eph_x25519_sk, eph_x25519_pk, eph_mlkem_sk, eph_mlkem_pk) = ephemeral_from_seeds(eph_x25519_sk, mlkem_seed);
    let ghost hello = first_hello(
        *my_cert,
        relay_flag,
        eph_x25519_sk@,
        mlkem_seed@,
        draws.rx_session_id,
        draws.random@,
        now,
    );
    let empty: [u8; 0] = [];
    assert(empty@ =~= Seq::<u8>::empty());
    let signed = put_hello(
        KIND_HANDSHAKE_1,
        relay_flag,
        now,
        &draws,
        &eph_x25519_pk,
        &mlkem_pk_bytes(&eph_mlkem_pk),
        &empty,
        my_cert,
    );
    let msg = sign_and_seal(Ghost(hello), signed, my_signing_key, network_key, &draws, 0)?;
    Ok(HandshakeInitiate { msg, eph_x25519_sk, eph_mlkem_sk, my_rx_session_id: draws.rx_session_id })
}

/// What is wrong with a handshake message on the wire, or `None` where it is accepted.
pub open spec fn incoming_error(
    data: Seq<u8>,
    network_key: Seq<u8>,
    kind: u8,
    kem_len: nat,
    transcript: Seq<u8>,
    peer_cert: Option<Cert>,
    ca_vk: CaVerifyKey,
    now: u64,
) -> Option<HandshakeError> {
    match opened_handshake(data, network_key) {
        None => Some(HandshakeError::DecryptFailed),
        Some(p) => hello_error(p, kind, kem_len, transcript, peer_cert, ca_vk, now),
    }
}

/// The fields of the first message that was received as `data`.
pub open spec fn hello_1(data: Seq<u8>, network_key: Seq<u8>) -> Hello {
    read_hello(opened_handshake(data, network_key)->0, MLKEM_PK_LEN as nat, 0, Seq::empty())
}

/// The fields of the second message that was received as `data`.
pub open spec fn hello_2(data: Seq<u8>, network_key: Seq<u8>) -> Hello {
    read_hello(opened_handshake(data, network_key)->0, MLKEM_CT_LEN as nat, TRANSCRIPT_LEN as nat, Seq::empty())
}

/// What is wrong with a first message.
pub open spec fn first_error(
    data: Seq<u8>,
    network_key: Seq<u8>,
    peer_cert: Option<Cert>,
    ca_vk: CaVerifyKey,
    now: u64,
) -> Option<HandshakeError> {
    match incoming_error(data, network_key, KIND_HANDSHAKE_1, MLKEM_PK_LEN as nat, Seq::empty(), peer_cert, ca_vk, now) {
        Some(e) => Some(e),
        None => if mlkem768_valid(hello_1(data, network_key).kem) {
            None
        } else {
            Some(HandshakeError::InvalidPeerKey)
        },
    }
}

/// What is wrong with a second message that answers `hs1_msg`.
pub open spec fn second_error(
    data: Seq<u8>,
    hs1_msg: Seq<u8>,
    network_key: Seq<u8>,
    peer_cert: Option<Cert>,
    ca_vk: CaVerifyKey,
    now: u64,
) -> Option<HandshakeError> {
    incoming_error(
        data,
        network_key,
        KIND_HANDSHAKE_2,
        MLKEM_CT_LEN as nat,
        blake3_hashed(hs1_msg),
        peer_cert,
        ca_vk,
        now,
    )
}

/// What a first message says, once it was accepted.
pub struct Handshake1Plain {
    pub cert: Cert,
    pub rx_session_id: u32,
    pub eph_x25519_pk: [u8; X25519_PK_LEN],
    pub eph_mlkem_pk: [u8; MLKEM_PK_LEN],
    pub peer_is_relay: bool,
}

impl Handshake1Plain {
    /// Whether the value is what the message `data` says with the certificate `cert`.
    pub open spec fn says(self, data: Seq<u8>, network_key: Seq<u8>, cert: Cert) -> bool {
        let hello = hello_1(data, network_key);
        &&& self.cert == cert
        &&& self.rx_session_id == hello.rx_session_id
        &&& self.eph_x25519_pk@ == hello.eph_x25519_pk
        &&& self.eph_mlkem_pk@ == hello.kem
        &&& self.peer_is_relay == hello.is_relay()
    }
}

/// Whether the relay flag is set.
fn relays(flags: u16) -> (r: bool)
    ensures
        r == (flags % 2 == 1),
{
    assert((flags & 1 != 0) == (flags % 2 == 1)) by (bit_vector);
    flags & FLAG_RELAY != 0
}

/// Opens and checks a first message. `peer_cert` is what its certificate field, as
/// `handshake_cert_bytes` finds it, reads as.
fn parse_handshake_1(
    data: &[u8],
    peer_cert: Option<Cert>,
    network_key: &[u8; K_HEADER_LEN],
    ca_vk: &CaVerifyKey,
    now: u64,
) -> (r: Result<Handshake1Plain, HandshakeError>)
    ensures
        ({
            let error = incoming_error(
                data@,
                network_key@,
                KIND_HANDSHAKE_1,
                MLKEM_PK_LEN as nat,
                Seq::empty(),
                peer_cert,
                *ca_vk,
                now,
            );
            &&& r is Err == error is Some
            &&& r matches Err(e) ==> error == Some(e)
            &&& r matches Ok(hs1) ==> peer_cert is Some && hs1.says(data@, network_key@, peer_cert->0)
        }),
{
    let plaintext = match open_handshake(network_key, data) {
        Some(p) => p,
        None => return Err(HandshakeError::DecryptFailed),
    };
    let empty: [u8; 0] = [];
    assert(empty@ =~= Seq::<u8>::empty());
    let hello = parse_hello(plaintext.as_slice(), KIND_HANDSHAKE_1, MLKEM_PK_LEN, &empty, &peer_cert, ca_vk, now)?;
    let eph_mlkem_pk: [u8; MLKEM_PK_LEN] = array_from(hello.kem.as_slice());
    assert(eph_mlkem_pk@ =~= hello.kem@);
    match peer_cert {
        Some(cert) => Ok(
            Handshake1Plain {
                cert,
                rx_session_id: hello.rx_session_id,
                eph_x25519_pk: hello.eph_x25519_pk,
                eph_mlkem_pk,
                peer_is_relay: relays(hello.flags),
            },
        ),
        None => Err(HandshakeError::CertDecode),
    }
}

/// The fields of the second message that answers `hs1_msg`.
pub open spec fn second_hello(
    my_cert: Cert,
    relay_flag: bool,
    eph_x25519_pk: Seq<u8>,
    mlkem_ct: Seq<u8>,
    hs1_msg: Seq<u8>,
    rx_session_id: u32,
    random: Seq<u8>,
    now: u64,
) -> Hello {
    Hello {
        kind: KIND_HANDSHAKE_2,
        flags: flags_of(relay_flag),
        timestamp: now,
        random,
        rx_session_id,
        eph_x25519_pk,
        kem: mlkem_ct,
        transcript: blake3_hashed(hs1_msg),
        cert: my_cert.json(),
    }
}

/// What the responder's side of the key agreement gave: a fresh public key, the hybrid
/// secret and the ML-KEM ciphertext.
pub struct Encapsulation {
    pub eph_x25519_pk: [u8; X25519_PK_LEN],
    pub hybrid_ss: [u8; HYBRID_SHARED_SECRET_LEN],
    pub mlkem_ct: [u8; MLKEM_CT_LEN],
}

/// Whether `resp` answers the first message `data`: its message is signed with `sk`, names
/// the session that the initiator receives on, and its session key belongs to the secret
/// and both messages.
pub open spec fn is_answer(
    resp: HandshakeResponse,
    data: Seq<u8>,
    enc: Encapsulation,
    my_cert: Cert,
    sk: HybridSigningKey,
    network_key: Seq<u8>,
    relay_flag: bool,
    now: u64,
    random: Seq<u8>,
    padding: Seq<u8>,
) -> bool {
    let hello = second_hello(
        my_cert,
        relay_flag,
        enc.eph_x25519_pk@,
        enc.mlkem_ct@,
        data,
        resp.my_rx_session_id,
        random,
        now,
    );
    &&& hello.sized(MLKEM_CT_LEN as nat, TRANSCRIPT_LEN as nat)
    &&& is_hello_message(resp.msg@, hello, sk, padding, resp.peer_rx_session_id, network_key)
    &&& resp.session_key@ == session_v2(enc.hybrid_ss@, data, resp.msg@)
}

/// Makes the answer to an accepted first message, with a given outcome of the key
/// agreement and given random values.
pub fn answer_handshake_1(
    data: &[u8],
    hs1: Handshake1Plain,
    enc: &Encapsulation,
    my_cert: &Cert,
    my_signing_key: &NodeSigningSecretKey,
    network_key: &[u8; K_HEADER_LEN],
    relay_flag: bool,
    draws: HandshakeDraws,
    now: u64,
) -> (r: Result<HandshakeResponse, HandshakeError>)
    ensures
        ({
            let hello = second_hello(
                *my_cert,
                relay_flag,
                enc.eph_x25519_pk@,
                enc.mlkem_ct@,
                data@,
                draws.rx_session_id,
                draws.random@,
                now,
            );
            let error = send_error(hello.signed(), my_signing_key.ml_dsa_seed@, draws.padding@.len());
            &&& hello.sized(MLKEM_CT_LEN as nat, TRANSCRIPT_LEN as nat)
            &&& r is Err == error is Some
            &&& r matches Err(e) ==> error == Some(e)
            &&& r matches Ok(resp) ==> {
                &&& is_answer(
                    resp,
                    data@,
                    *enc,
                    *my_cert,
                    my_signing_key.hybrid(),
                    network_key@,
                    relay_flag,
                    now,
                    draws.random@,
                    draws.padding@,
                )
                &&& resp.my_rx_session_id == draws.rx_session_id
                &&& resp.peer_cert == hs1.cert
                &&& resp.peer_is_relay == hs1.peer_is_relay
                &&& resp.peer_rx_session_id == hs1.rx_session_id
            }
        }),
{
    let transcript = blake3_hash(data);
    let ghost hello = second_hello(
        *my_cert,
        relay_flag,
        enc.eph_x25519_pk@,
        enc.mlkem_ct@,
        data@,
        draws.rx_session_id,
        draws.random@,
        now,
    );
    let signed = put_hello(
        KIND_HANDSHAKE_2,
        relay_flag,
        now,
        &draws,
        &enc.eph_x25519_pk,
        &enc.mlkem_ct,
        &transcript,
        my_cert,
    );
    let msg = sign_and_seal(
        Ghost(hello),
        signed,
        my_signing_key,
        network_key,
        &draws,
        hs1.rx_session_id,
    )?;
    let session_key = derive_session_v2(&enc.hybrid_ss, data, msg.as_slice());
    Ok(
        HandshakeResponse {
            msg,
            session_key,
            peer_cert: hs1.cert,
            peer_is_relay: hs1.peer_is_relay,
            my_rx_session_id: draws.rx_session_id,
            peer_rx_session_id: hs1.rx_session_id,
        },
    )
}

/// Why the answer to the first message `data` cannot be made.
pub open spec fn second_send_error(
    my_cert: Cert,
    relay_flag: bool,
    enc: Encapsulation,
    data: Seq<u8>,
    rx_session_id: u32,
    random: Seq<u8>,
    now: u64,
    sk: HybridSigningKey,
    padding_len: nat,
) -> Option<HandshakeError> {
    send_error(
        second_hello(
            my_cert,
            relay_flag,
            enc.eph_x25519_pk@,
            enc.mlkem_ct@,
            data,
            rx_session_id,
            random,
            now,
        ).signed(),
        sk.ml_dsa_seed@,
        padding_len,
    )
}

/// Whether `r` is a right outcome for the first message `data` at `now`.
pub open spec fn is_outcome_1(
    r: Result<HandshakeResponse, HandshakeError>,
    data: Seq<u8>,
    peer_cert: Option<Cert>,
    my_cert: Cert,
    sk: HybridSigningKey,
    network_key: Seq<u8>,
    ca_vk: CaVerifyKey,
    relay_flag: bool,
    now: u64,
) -> bool {
    let hello = hello_1(data, network_key);
    match first_error(data, network_key, peer_cert, ca_vk, now) {
        Some(e) => r == Err::<HandshakeResponse, HandshakeError>(e),
        None => match r {
            Ok(resp) => {
                &&& resp.my_rx_session_id != 0
                &&& peer_cert == Some(resp.peer_cert)
                &&& resp.peer_is_relay == hello.is_relay()
                &&& resp.peer_rx_session_id == hello.rx_session_id
                &&& exists|enc: Encapsulation, random: Seq<u8>, padding: Seq<u8>|
                    {
                        &&& is_encapsulation(
                            hello.eph_x25519_pk,
                            hello.kem,
                            enc.eph_x25519_pk@,
                            enc.hybrid_ss@,
                            enc.mlkem_ct@,
                        )
                        &&& padding.len() < PADDING_LIMIT
                        &&& #[trigger] is_answer(
                            resp,
                            data,
                            enc,
                            my_cert,
                            sk,
                            network_key,
                            relay_flag,
                            now,
                            random,
                            padding,
                        )
                    }
            },
            Err(e) => exists|enc: Encapsulation, id: u32, random: Seq<u8>, n: nat|
                {
                    &&& is_encapsulation(
                        hello.eph_x25519_pk,
                        hello.kem,
                        enc.eph_x25519_pk@,
                        enc.hybrid_ss@,
                        enc.mlkem_ct@,
                    )
                    &&& id != 0
                    &&& n < PADDING_LIMIT
                    &&& second_hello(
                        my_cert,
                        relay_flag,
                        enc.eph_x25519_pk@,
                        enc.mlkem_ct@,
                        data,
                        id,
                        random,
                        now,
                    ).sized(MLKEM_CT_LEN as nat, TRANSCRIPT_LEN as nat)
                    &&& #[trigger] second_send_error(my_cert, relay_flag, enc, data, id, random, now, sk, n) == Some(e)
                },
        },
    }
}

/// Processes a first message: checks it, agrees on a secret with its sender, and makes
/// the answer. `peer_cert` is what the message's certificate field, as
/// `handshake_cert_bytes` finds it, reads as, and `None` where it cannot be read.
pub fn process_handshake_1(
    data: &[u8],
    peer_cert: Option<Cert>,
    my_cert: &Cert,
    my_signing_key: &NodeSigningSecretKey,
    network_key: &[u8; K_HEADER_LEN],
    ca_vk: &CaVerifyKey,
    relay_flag: bool,
) -> (r: Result<HandshakeResponse, HandshakeError>)
    ensures
        exists|now: u64| #[trigger]
            is_outcome_1(
                r,
                data@,
                peer_cert,
                *my_cert,
                my_signing_key.hybrid(),
                network_key@,
                *ca_vk,
                relay_flag,
                now,
            ),
{
    process_handshake_1_at(
        data,
        peer_cert,
        my_cert,
        my_signing_key,
        network_key,
        ca_vk,
        relay_flag,
        unix_time_secs(),
    )
}

/// `process_handshake_1` at a given time.
pub fn process_handshake_1_at(
    data: &[u8],
    peer_cert: Option<Cert>,
    my_cert: &Cert,
    my_signing_key: &NodeSigningSecretKey,
    network_key: &[u8; K_HEADER_LEN],
    ca_vk: &CaVerifyKey,
    relay_flag: bool,
    now: u64,
) -> (r: Result<HandshakeResponse, HandshakeError>)
    ensures
        is_outcome_1(
            r,
            data@,
            peer_cert,
            *my_cert,
            my_signing_key.hybrid(),
            network_key@,
            *ca_vk,
            relay_flag,
            now,
        ),
{
    let hs1 = match parse_handshake_1(data, peer_cert, network_key, ca_vk, now) {
        Ok(hs1) => hs1,
        Err(e) => return Err(e),
    };
    let (eph_x25519_pk, hybrid_ss, mlkem_ct) = match try_encapsulate(&hs1.eph_x25519_pk, &hs1.eph_mlkem_pk) {
        Some(t) => t,
        None => return Err(HandshakeError::InvalidPeerKey),
    };
    let mut enc = Encapsulation { eph_x25519_pk, hybrid_ss, mlkem_ct };
    let ghost whole = enc;
    let draws = draw();
    let ghost drawn = draws;
    let r = answer_handshake_1(data, hs1, &enc, my_cert, my_signing_key, network_key, relay_flag, draws, now);
    wipe(&mut enc.hybrid_ss);
    assert(r is Ok ==> is_answer(
        r->Ok_0,
        data@,
        whole,
        *my_cert,
        my_signing_key.hybrid(),
        network_key@,
        relay_flag,
        now,
        draws.random@,
        draws.padding@,
    ));
    assert(r is Err ==> second_send_error(
        *my_cert,
        relay_flag,
        whole,
        data@,
        drawn.rx_session_id,
        drawn.random@,
        now,
        my_signing_key.hybrid(),
        drawn.padding@.len(),
    ) == Some(r->Err_0));
    r
}

/// Whether `result` is what the initiator has of a handshake that the answer `data`
/// finished.
pub open spec fn is_completion(
    result: HandshakeResult,
    data: Seq<u8>,
    peer_cert: Option<Cert>,
    initiate: HandshakeInitiate,
    network_key: Seq<u8>,
) -> bool {
    let hello = hello_2(data, network_key);
    &&& peer_cert == Some(result.peer_cert)
    &&& result.session_key@ == session_v2(
        decapsulated(initiate.eph_x25519_sk@, hello.eph_x25519_pk, initiate.eph_mlkem_sk.seed@, hello.kem),
        initiate.msg@,
        data,
    )
    &&& result.peer_eph_x25519@ == hello.eph_x25519_pk
    &&& result.peer_is_relay == hello.is_relay()
    &&& result.my_rx_session_id == initiate.my_rx_session_id
    &&& result.peer_rx_session_id == hello.rx_session_id
}

/// Processes the answer to a first message. `peer_cert` is what the answer's certificate
/// field, as `handshake_cert_bytes` finds it, reads as.
pub fn process_handshake_2(
    data: &[u8],
    peer_cert: Option<Cert>,
    initiate: HandshakeInitiate,
    network_key: &[u8; K_HEADER_LEN],
    ca_vk: &CaVerifyKey,
) -> (r: Result<HandshakeResult, HandshakeError>)
    ensures
        exists|now: u64|
            {
                let error = #[trigger] second_error(data@, initiate.msg@, network_key@, peer_cert, *ca_vk, now);
                &&& r is Err == error is Some
                &&& r matches Err(e) ==> error == Some(e)
            },
        r matches Ok(result) ==> is_completion(result, data@, peer_cert, initiate, network_key@),
        blake3_hashed(initiate.msg@).len() == TRANSCRIPT_LEN,
{
    process_handshake_2_at(data, peer_cert, initiate, network_key, ca_vk, unix_time_secs())
}

/// `process_handshake_2` at a given time.
pub fn process_handshake_2_at(
    data: &[u8],
    peer_cert: Option<Cert>,
    initiate: HandshakeInitiate,
    network_key: &[u8; K_HEADER_LEN],
    ca_vk: &CaVerifyKey,
    now: u64,
) -> (r: Result<HandshakeResult, HandshakeError>)
    ensures
        ({
            let error = second_error(data@, initiate.msg@, network_key@, peer_cert, *ca_vk, now);
            &&& r is Err == error is Some
            &&& r matches Err(e) ==> error == Some(e)
            &&& r matches Ok(result) ==> is_completion(result, data@, peer_cert, initiate, network_key@)
        }),
        blake3_hashed(initiate.msg@).len() == TRANSCRIPT_LEN,
{
    let mut initiate = initiate;
    let transcript = blake3_hash(initiate.msg.as_slice());
    let parsed = match open_handshake(network_key, data) {
        Some(plaintext) => parse_hello(
            plaintext.as_slice(),
            KIND_HANDSHAKE_2,
            MLKEM_CT_LEN,
            &transcript,
            &peer_cert,
            ca_vk,
            now,
        ),
        None => Err(HandshakeError::DecryptFailed),
    };
    let hello = match parsed {
        Ok(hello) => hello,
        Err(e) => {
            initiate.zeroize();
            return Err(e);
        },
    };
    let mlkem_ct: [u8; MLKEM_CT_LEN] = array_from(hello.kem.as_slice());
    assert(mlkem_ct@ =~= hello.kem@);
    let mut hybrid_ss = decapsulate(
        initiate.eph_x25519_sk,
        &hello.eph_x25519_pk,
        &initiate.eph_mlkem_sk.seed,
        &mlkem_ct,
    );
    let session_key = derive_session_v2(&hybrid_ss, initiate.msg.as_slice(), data);
    wipe(&mut hybrid_ss);
    let my_rx_session_id: u32 = initiate.my_rx_session_id;
    initiate.zeroize();
    match peer_cert {
        Some(peer_cert) => Ok(
            HandshakeResult {
                peer_cert,
                session_key,
                peer_eph_x25519: hello.eph_x25519_pk,
                peer_is_relay: relays(hello.flags),
                my_rx_session_id,
                peer_rx_session_id: hello.rx_session_id,
            },
        ),
        None => Err(HandshakeError::CertDecode),
    }
}

/// Whether a message with the fields of `hello`, signed with `sk`, comes from the owner of
/// a good certificate, in time, with a signature that is not degenerate.
pub open spec fn is_honest(hello: Hello, sk: HybridSigningKey, cert: Cert, ca_vk: CaVerifyKey, now: u64) -> bool {
    &&& cert.valid_at(ca_vk, now as int)
    &&& is_keypair(sk, cert.body.keys.hybrid())
    &&& hello.cert.len() <= u32::MAX
    &&& timely(hello.timestamp, now)
    &&& ed25519_signature(sk.ed25519@, hello.signed()).take(32) != ed25519_neutral()
}

/// The fields of a handshake message are read back from its plaintext.
proof fn lemma_read_hello(hello: Hello, kem_len: nat, transcript_len: nat, rest: Seq<u8>)
    requires
        hello.sized(kem_len, transcript_len),
    ensures
        ({
            let p = hello.prefix() + rest;
            let cert_at = HELLO_PREFIX_LEN + kem_len + transcript_len;
            &&& hello.prefix().len() == cert_at
            &&& p[1] == HANDSHAKE_VERSION
            &&& read_hello(p, kem_len, transcript_len, hello.cert) == hello
            &&& p.subrange((HELLO_PREFIX_LEN + kem_len) as int, cert_at as int) == hello.transcript
            &&& p.skip(cert_at as int) == rest
        }),
{
    let p = hello.prefix() + rest;
    let cert_at = HELLO_PREFIX_LEN + kem_len + transcript_len;
    let r6 = hello.transcript + rest;
    let r5 = hello.kem + r6;
    let r4 = hello.eph_x25519_pk + r5;
    let r3 = be32(hello.rx_session_id) + r4;
    let r2 = hello.random + r3;
    let r1 = be64(hello.timestamp) + r2;
    lemma_be16(hello.flags, r1);
    lemma_be64(hello.timestamp, r2);
    lemma_be32(hello.rx_session_id, r4);
    assert(p.skip(2) =~= be16(hello.flags) + r1);
    assert(p.skip(4) =~= r1);
    assert(p.skip(28) =~= r3);
    assert(p.subrange(12, 28) =~= hello.random);
    assert(p.subrange(32, 64) =~= hello.eph_x25519_pk);
    assert(p.subrange(64, (64 + kem_len) as int) =~= hello.kem);
    assert(p.subrange((64 + kem_len) as int, cert_at as int) =~= hello.transcript);
    assert(p.skip(cert_at as int) =~= rest);
}

/// The message of an honest sender is accepted, by whoever expects it and trusts the
/// authority, and the receiver reads the fields that the sender wrote.
pub proof fn law_honest_message_is_accepted(
    msg: Seq<u8>,
    hello: Hello,
    sk: HybridSigningKey,
    padding: Seq<u8>,
    session_id: u32,
    network_key: Seq<u8>,
    kem_len: nat,
    cert: Cert,
    ca_vk: CaVerifyKey,
    now: u64,
)
    requires
        is_hello_message(msg, hello, sk, padding, session_id, network_key),
        hello.kind == KIND_HANDSHAKE_1 || hello.kind == KIND_HANDSHAKE_2,
        hello.sized(kem_len, hello.transcript.len()),
        is_honest(hello, sk, cert, ca_vk, now),
    ensures
        incoming_error(msg, network_key, hello.kind, kem_len, hello.transcript, Some(cert), ca_vk, now) is None,
        wire_header(msg, network_key) == Some(session_header(hello.kind, 0, session_id)),
        opened_handshake(msg, network_key) is Some,
        read_hello(opened_handshake(msg, network_key)->0, kem_len, hello.transcript.len(), hello.cert) == hello,
        read_field(
            opened_handshake(msg, network_key)->0.skip((HELLO_PREFIX_LEN + kem_len + hello.transcript.len()) as int),
        ) is Some,
        (read_field(
            opened_handshake(msg, network_key)->0.skip((HELLO_PREFIX_LEN + kem_len + hello.transcript.len()) as int),
        )->0).0 == hello.cert,
{
    let sig = choose|sig: HybridSignature|
        {
            &&& is_signature(sk, hello.signed(), sig)
            &&& is_sealed_handshake(msg, #[trigger] hello_plaintext(hello, sig, padding), 0, session_id, network_key)
        };
    let p = hello_plaintext(hello, sig, padding);
    let cert_at = HELLO_PREFIX_LEN + kem_len + hello.transcript.len();
    let tail = sig.ed25519@ + sig.ml_dsa@ + padding;
    let rest = field(hello.cert) + tail;
    assert(p =~= hello.prefix() + rest);
    lemma_read_hello(hello, kem_len, hello.transcript.len(), rest);
    lemma_field(hello.cert, tail);
    law_sealed_handshake_opens(msg, p, 0, session_id, network_key);
    assert(tail.take(ED25519_SIG_LEN as int) =~= sig.ed25519@);
    assert(tail.subrange(ED25519_SIG_LEN as int, ED25519_SIG_LEN + MLDSA_SIG_LEN) =~= sig.ml_dsa@);
    assert(p.take(cert_at + 4 + hello.cert.len()) =~= hello.signed());
    assert(!is_degenerate(sig));
    assert(accepts(cert.body.keys.hybrid(), hello.signed(), sig));
    assert(read_signature(tail, sig));
    assert(signed_by(cert, hello.signed(), tail));
}

/// The first message of an honest initiator is accepted, and the responder reads from it
/// the initiator's keys, session and relay flag, and the bytes of its certificate.
pub proof fn law_first_message_is_accepted(
    init: HandshakeInitiate,
    cert: Cert,
    sk: HybridSigningKey,
    network_key: Seq<u8>,
    relay_flag: bool,
    sent_at: u64,
    random: Seq<u8>,
    padding: Seq<u8>,
    ca_vk: CaVerifyKey,
    now: u64,
)
    requires
        is_initiation(init, cert, sk, network_key, relay_flag, sent_at, random, padding),
        is_honest(
            first_hello(
                cert,
                relay_flag,
                init.eph_x25519_sk@,
                init.eph_mlkem_sk.seed@,
                init.my_rx_session_id,
                random,
                sent_at,
            ),
            sk,
            cert,
            ca_vk,
            now,
        ),
    ensures
        first_error(init.msg@, network_key, Some(cert), ca_vk, now) is None,
        ({
            let seen = hello_1(init.msg@, network_key);
            &&& seen.eph_x25519_pk == x25519_public(init.eph_x25519_sk@)
            &&& seen.kem == mlkem768_public(init.eph_mlkem_sk.seed@)
            &&& seen.rx_session_id == init.my_rx_session_id
            &&& seen.is_relay() == relay_flag
        }),
        cert_field(opened_handshake(init.msg@, network_key)->0) == Some(cert.json()),
{
    let hello = first_hello(
        cert,
        relay_flag,
        init.eph_x25519_sk@,
        init.eph_mlkem_sk.seed@,
        init.my_rx_session_id,
        random,
        sent_at,
    );
    law_honest_message_is_accepted(
        init.msg@,
        hello,
        sk,
        padding,
        0,
        network_key,
        MLKEM_PK_LEN as nat,
        cert,
        ca_vk,
        now,
    );
}

/// The answer of an honest responder is accepted by the initiator whose message it
/// answers, and the initiator reads from it the responder's key, ciphertext, session and
/// relay flag, and the bytes of its certificate.
pub proof fn law_answer_is_accepted(
    resp: HandshakeResponse,
    hs1_msg: Seq<u8>,
    enc: Encapsulation,
    cert: Cert,
    sk: HybridSigningKey,
    network_key: Seq<u8>,
    relay_flag: bool,
    sent_at: u64,
    random: Seq<u8>,
    padding: Seq<u8>,
    ca_vk: CaVerifyKey,
    now: u64,
)
    requires
        is_answer(resp, hs1_msg, enc, cert, sk, network_key, relay_flag, sent_at, random, padding),
        is_honest(
            second_hello(
                cert,
                relay_flag,
                enc.eph_x25519_pk@,
                enc.mlkem_ct@,
                hs1_msg,
                resp.my_rx_session_id,
                random,
                sent_at,
            ),
            sk,
            cert,
            ca_vk,
            now,
        ),
    ensures
        second_error(resp.msg@, hs1_msg, network_key, Some(cert), ca_vk, now) is None,
        ({
            let seen = hello_2(resp.msg@, network_key);
            &&& seen.eph_x25519_pk == enc.eph_x25519_pk@
            &&& seen.kem == enc.mlkem_ct@
            &&& seen.rx_session_id == resp.my_rx_session_id
            &&& seen.is_relay() == relay_flag
        }),
        cert_field(opened_handshake(resp.msg@, network_key)->0) == Some(cert.json()),
{
    let hello = second_hello(
        cert,
        relay_flag,
        enc.eph_x25519_pk@,
        enc.mlkem_ct@,
        hs1_msg,
        resp.my_rx_session_id,
        random,
        sent_at,
    );
    law_honest_message_is_accepted(
        resp.msg@,
        hello,
        sk,
        padding,
        resp.peer_rx_session_id,
        network_key,
        MLKEM_CT_LEN as nat,
        cert,
        ca_vk,
        now,
    );
}

/// Both sides of a handshake derive the same session key and know each other's sessions.
/// The one exception is a ciphertext for which ML-KEM decapsulation does not return the
/// responder's shared key.
pub proof fn law_both_sides_agree(
    init: HandshakeInitiate,
    resp: HandshakeResponse,
    result: HandshakeResult,
    enc: Encapsulation,
    cert: Cert,
    sk: HybridSigningKey,
    network_key: Seq<u8>,
    relay_flag: bool,
    sent_at: u64,
    random: Seq<u8>,
    padding: Seq<u8>,
    ca_vk: CaVerifyKey,
    now: u64,
    eph_sk: Seq<u8>,
    m: Seq<u8>,
)
    requires
        is_answer(resp, init.msg@, enc, cert, sk, network_key, relay_flag, sent_at, random, padding),
        is_honest(
            second_hello(
                cert,
                relay_flag,
                enc.eph_x25519_pk@,
                enc.mlkem_ct@,
                init.msg@,
                resp.my_rx_session_id,
                random,
                sent_at,
            ),
            sk,
            cert,
            ca_vk,
            now,
        ),
        encapsulated_from(
            eph_sk,
            m,
            x25519_public(init.eph_x25519_sk@),
            mlkem768_public(init.eph_mlkem_sk.seed@),
            enc.eph_x25519_pk@,
            enc.hybrid_ss@,
            enc.mlkem_ct@,
        ),
        mlkem768_decapsulated(init.eph_mlkem_sk.seed@, enc.mlkem_ct@) == mlkem768_encapsulated(
            mlkem768_public(init.eph_mlkem_sk.seed@),
            m,
        ).1,
        is_completion(result, resp.msg@, Some(cert), init, network_key),
    ensures
        result.session_key@ == resp.session_key@,
        result.peer_rx_session_id == resp.my_rx_session_id,
        result.peer_is_relay == relay_flag,
{
    law_answer_is_accepted(
        resp,
        init.msg@,
        enc,
        cert,
        sk,
        network_key,
        relay_flag,
        sent_at,
        random,
        padding,
        ca_vk,
        now,
    );
    law_exchange_agrees(
        eph_sk,
        m,
        init.eph_x25519_sk@,
        init.eph_mlkem_sk.seed@,
        enc.eph_x25519_pk@,
        enc.hybrid_ss@,
        enc.mlkem_ct@,
    );
}

/// The first message of an honest initiator is answered, and the answer is a second message
/// for the session that the initiator receives on. The exception is an answer that the
/// responder cannot make: ML-DSA finds no signature, or its certificate is too long.
pub proof fn law_honest_first_message_is_answered(
    init: HandshakeInitiate,
    cert: Cert,
    sk: HybridSigningKey,
    network_key: Seq<u8>,
    relay_flag: bool,
    sent_at: u64,
    random: Seq<u8>,
    padding: Seq<u8>,
    ca_vk: CaVerifyKey,
    now: u64,
    my_cert: Cert,
    my_sk: HybridSigningKey,
    my_relay_flag: bool,
    r: Result<HandshakeResponse, HandshakeError>,
)
    requires
        is_initiation(init, cert, sk, network_key, relay_flag, sent_at, random, padding),
        is_honest(
            first_hello(
                cert,
                relay_flag,
                init.eph_x25519_sk@,
                init.eph_mlkem_sk.seed@,
                init.my_rx_session_id,
                random,
                sent_at,
            ),
            sk,
            cert,
            ca_vk,
            now,
        ),
        is_outcome_1(r, init.msg@, Some(cert), my_cert, my_sk, network_key, ca_vk, my_relay_flag, now),
        forall|enc: Encapsulation, id: u32, rnd: Seq<u8>, n: nat|
            rnd.len() == 16 && n < PADDING_LIMIT ==> #[trigger] second_send_error(
                my_cert,
                my_relay_flag,
                enc,
                init.msg@,
                id,
                rnd,
                now,
                my_sk,
                n,
            ) is None,
    ensures
        r matches Ok(resp) && resp.peer_cert == cert && resp.peer_is_relay == relay_flag && resp.peer_rx_session_id
            == init.my_rx_session_id && resp.my_rx_session_id != 0 && wire_header(resp.msg@, network_key) == Some(
            session_header(KIND_HANDSHAKE_2, 0, init.my_rx_session_id),
        ),
{
    law_first_message_is_accepted(
        init,
        cert,
        sk,
        network_key,
        relay_flag,
        sent_at,
        random,
        padding,
        ca_vk,
        now,
    );
    let hello = hello_1(init.msg@, network_key);
    let resp = r->Ok_0;
    let (enc, rnd, pad) = choose|enc: Encapsulation, rnd: Seq<u8>, pad: Seq<u8>|
        {
            &&& is_encapsulation(
                hello.eph_x25519_pk,
                hello.kem,
                enc.eph_x25519_pk@,
                enc.hybrid_ss@,
                enc.mlkem_ct@,
            )
            &&& pad.len() < PADDING_LIMIT
            &&& #[trigger] is_answer(
                resp,
                init.msg@,
                enc,
                my_cert,
                my_sk,
                network_key,
                my_relay_flag,
                now,
                rnd,
                pad,
            )
        };
    law_answer_names_the_session(
        resp,
        init.msg@,
        enc,
        my_cert,
        my_sk,
        network_key,
        my_relay_flag,
        now,
        rnd,
        pad,
    );
}

/// The header of an answer says that it is one, and names the session that the initiator
/// receives on.
pub proof fn law_answer_names_the_session(
    resp: HandshakeResponse,
    hs1_msg: Seq<u8>,
    enc: Encapsulation,
    cert: Cert,
    sk: HybridSigningKey,
    network_key: Seq<u8>,
    relay_flag: bool,
    sent_at: u64,
    random: Seq<u8>,
    padding: Seq<u8>,
)
    requires
        is_answer(resp, hs1_msg, enc, cert, sk, network_key, relay_flag, sent_at, random, padding),
    ensures
        wire_header(resp.msg@, network_key) == Some(session_header(KIND_HANDSHAKE_2, 0, resp.peer_rx_session_id)),
{
    let hello = second_hello(
        cert,
        relay_flag,
        enc.eph_x25519_pk@,
        enc.mlkem_ct@,
        hs1_msg,
        resp.my_rx_session_id,
        random,
        sent_at,
    );
    let sig = choose|sig: HybridSignature|
        {
            &&& is_signature(sk, hello.signed(), sig)
            &&& is_sealed_handshake(
                resp.msg@,
                #[trigger] hello_plaintext(hello, sig, padding),
                0,
                resp.peer_rx_session_id,
                network_key,
            )
        };
    let p = hello_plaintext(hello, sig, padding);
    assert(p[0] == hello.prefix()[0]);
    law_sealed_handshake_opens(resp.msg@, p, 0, resp.peer_rx_session_id, network_key);
}

} // verus!
