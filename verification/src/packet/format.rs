//! What stands where in a packet, and what its keys come from.
use crate::addr::{ip_text, socket_text};
use crate::bytes::{be32, be64, field, from_be32, from_be64, lemma_be32, lemma_from_be32, read_field};
use crate::crypto::kdf::{blake3_derived, blake3_hashed, blake3_keyed, network_key_of, session_key_of};
use crate::handshake::session_v2;
use crate::packet::{
    header_mask, law_body_survives_encoding, packet_key_of, read_body, read_content, traffic_key_of, Body, DataPacket, NetworkHeader,
};
use vstd::prelude::*;
use vstd::utf8::encode_utf8;

verus! {

/// The bytes of a number, most significant first, are its digits to the base 256.
pub proof fn law_big_endian(x: u32, y: u64)
    ensures
        be32(x).len() == 4,
        x == be32(x)[0] * 0x100_0000 + be32(x)[1] * 0x1_0000 + be32(x)[2] * 0x100 + be32(x)[3],
        be64(y).len() == 8,
        y == be64(y)[0] * 0x100_0000_0000_0000 + be64(y)[1] * 0x1_0000_0000_0000 + be64(y)[2] * 0x100_0000_0000
            + be64(y)[3] * 0x1_0000_0000 + be64(y)[4] * 0x100_0000 + be64(y)[5] * 0x1_0000 + be64(y)[6] * 0x100
            + be64(y)[7],
{
    let hi = (y / 0x1_0000_0000) as u32;
    let lo = (y % 0x1_0000_0000) as u32;
    let (h, l) = (be32(hi), be32(lo));
    assert(be64(y) =~= h + l);
    lemma_digits(x);
    lemma_digits(hi);
    lemma_digits(lo);
}

proof fn lemma_digits(x: u32)
    ensures
        x == be32(x)[0] * 0x100_0000 + be32(x)[1] * 0x1_0000 + be32(x)[2] * 0x100 + be32(x)[3],
{
    lemma_be32(x, Seq::empty());
    assert(be32(x) + Seq::<u8>::empty() =~= be32(x));
}

/// The header of a packet holds the kind, the two numbers of a fragment, a zero, the peer and
/// the session in four bytes each, and four zeros.
pub proof fn law_header_layout(header: NetworkHeader)
    ensures
        ({
            let b = header.bytes();
            &&& b.len() == 16
            &&& b[0] == header.kind
            &&& b[1] == header.frag_index
            &&& b[2] == header.frag_total
            &&& b[3] == 0
            &&& b.subrange(4, 8) == be32(header.dst_peer_id)
            &&& b.subrange(8, 12) == be32(header.session_id)
            &&& b.subrange(12, 16) == seq![0u8, 0, 0, 0]
        }),
{
    let b = header.bytes();
    assert(b.subrange(4, 8) =~= be32(header.dst_peer_id));
    assert(b.subrange(8, 12) =~= be32(header.session_id));
    assert(b.subrange(12, 16) =~= seq![0u8, 0, 0, 0]);
}

/// A packet holds eight bytes of the mask's nonce, sixteen of the masked header, twelve of the
/// cipher's nonce, and the ciphertext. The first twenty-four are authenticated with it, and
/// the packet is longer by 52 bytes than what it seals.
pub proof fn law_packet_layout(pkt: DataPacket, header: NetworkHeader, plaintext: Seq<u8>, network_key: Seq<u8>, key: Seq<u8>)
    requires
        pkt.seals(header, plaintext, network_key, key),
    ensures
        pkt.wire().subrange(0, 8) == pkt.mask_nonce@,
        pkt.wire().subrange(8, 24) == pkt.masked_header@,
        pkt.wire().subrange(24, 36) == pkt.nonce@,
        pkt.wire().skip(36) == pkt.ciphertext@,
        pkt.aad() == pkt.wire().take(24),
        pkt.wire().len() == plaintext.len() + 52,
        forall|i: int|
            0 <= i < 16 ==> #[trigger] pkt.masked_header@[i] == header.bytes()[i] ^ header_mask(
                pkt.mask_nonce@,
                network_key,
            )[i],
{
    assert(pkt.wire().subrange(0, 8) =~= pkt.mask_nonce@);
    assert(pkt.wire().subrange(8, 24) =~= pkt.masked_header@);
    assert(pkt.wire().subrange(24, 36) =~= pkt.nonce@);
    assert(pkt.wire().skip(36) =~= pkt.ciphertext@);
    assert(pkt.aad() =~= pkt.wire().take(24));
}

/// A packet of a session hides the length of what it says by less than 32 bytes.
pub proof fn law_padding_is_short(
    pkt: DataPacket,
    body: Body,
    dst_peer_id: u32,
    session_id: u32,
    network_key: Seq<u8>,
    session_key: Seq<u8>,
)
    requires
        pkt.carries(body, dst_peer_id, session_id, network_key, session_key),
    ensures
        body.bytes().len() + 52 <= pkt.wire().len() < body.bytes().len() + 84,
{
}

/// Every body starts with its kind and its number in eight bytes. What follows is, by kind:
/// - 0x21, an IP packet: its length in four bytes, and the packet;
/// - 0x22, a packet to pass on: the peer in four bytes, its length in four, and the packet;
/// - 0x23, a farewell: nothing;
/// - 0x24, a question, and 0x26, that nobody was found: the length of the address's text in
///   four bytes, and the text;
/// - 0x25, an introduction: such an address, the peer in four bytes, and with their lengths in
///   four bytes each its endpoint's text and its certificate, and one byte for a relay;
/// - 0x27, a keepalive, and 0x28, its answer: the token in eight bytes.
pub proof fn law_body_layout(body: Body)
    ensures
        ({
            let p = body.bytes();
            &&& p.len() >= 9
            &&& p.subrange(1, 9) == be64(body.seq())
            &&& match body {
                Body::Data { ip_packet, .. } => p[0] == 0x21 && p.skip(9) == be32(ip_packet.len() as u32) + ip_packet,
                Body::RelayForward { next_peer_id, inner_packet, .. } => p[0] == 0x22 && p.skip(9) == be32(next_peer_id)
                    + be32(inner_packet.len() as u32) + inner_packet,
                Body::Disconnect { .. } => p[0] == 0x23 && p.len() == 9,
                Body::LighthouseQuery { target_ip, .. } => p[0] == 0x24 && p.skip(9) == text_field(ip_text(target_ip)),
                Body::LighthouseResponse { target_ip, peer_id, peer_addr, peer_cert, peer_is_relay, .. } => p[0] == 0x25
                    && p.skip(9) == text_field(ip_text(target_ip)) + be32(peer_id) + text_field(socket_text(peer_addr))
                    + be32(peer_cert.len() as u32) + peer_cert + seq![if peer_is_relay {
                    1u8
                } else {
                    0u8
                }],
                Body::LighthouseNotFound { target_ip, .. } => p[0] == 0x26 && p.skip(9) == text_field(
                    ip_text(target_ip),
                ),
                Body::Keepalive { token, .. } => p[0] == 0x27 && p.skip(9) == be64(token),
                Body::KeepaliveAck { token, .. } => p[0] == 0x28 && p.skip(9) == be64(token),
            }
        }),
{
    let p = body.bytes();
    assert(p.subrange(1, 9) =~= be64(body.seq()));
    assert(p.skip(9) =~= body.content());
    match body {
        Body::RelayForward { next_peer_id, inner_packet, .. } => {
            assert(p.skip(9) =~= be32(next_peer_id) + be32(inner_packet.len() as u32) + inner_packet);
        },
        Body::LighthouseResponse { target_ip, peer_id, peer_addr, peer_cert, peer_is_relay, .. } => {
            assert(p.skip(9) =~= text_field(ip_text(target_ip)) + be32(peer_id) + text_field(socket_text(peer_addr))
                + be32(peer_cert.len() as u32) + peer_cert + seq![if peer_is_relay {
                1u8
            } else {
                0u8
            }]);
        },
        _ => {},
    }
}

/// The length of a text in UTF-8, in four bytes, and the text.
pub open spec fn text_field(text: Seq<char>) -> Seq<u8> {
    be32(encode_utf8(text).len() as u32) + encode_utf8(text)
}

/// The number of a body is the one that it was made with.
pub proof fn law_every_body_has_its_number(seq: u64, body: Body)
    requires
        match body {
            Body::Data { seq: n, .. } => n == seq,
            Body::RelayForward { seq: n, .. } => n == seq,
            Body::Disconnect { seq: n } => n == seq,
            Body::LighthouseQuery { seq: n, .. } => n == seq,
            Body::LighthouseResponse { seq: n, .. } => n == seq,
            Body::LighthouseNotFound { seq: n, .. } => n == seq,
            Body::Keepalive { seq: n, .. } => n == seq,
            Body::KeepaliveAck { seq: n, .. } => n == seq,
        },
    ensures
        body.seq() == seq,
{
}

/// What is read as a body without addresses is that body's encoding and padding, and the
/// encoding of each of them is read.
pub proof fn law_body_is_its_encoding(p: Seq<u8>, body: Body)
    requires
        body is Data || body is RelayForward || body is Disconnect || body is Keepalive || body is KeepaliveAck,
        body.fits(),
    ensures
        read_body(p) == Some(body) <==> body.bytes().len() <= p.len() && p.take(body.bytes().len() as int)
            == body.bytes(),
{
    let len = body.bytes().len() as int;
    if len <= p.len() && p.take(len) == body.bytes() {
        assert(p =~= body.bytes() + p.skip(len));
        law_body_survives_encoding(body, p.skip(len));
    }
    if read_body(p) == Some(body) {
        lemma_from_be64(p.skip(1));
        let rest = p.skip(9);
        assert(p.skip(1).take(8) =~= p.subrange(1, 9));
        lemma_content(p[0], from_be64(p.skip(1)), rest, body);
        let n = body.content().len() as int;
        assert(p.take(9 + n) =~= seq![p[0]] + (p.subrange(1, 9) + rest.take(n)));
        assert(body.bytes() =~= seq![body.kind()] + (be64(body.seq()) + body.content()));
    }
}

/// What is read as the content of a body without addresses is that body's encoding.
proof fn lemma_content(kind: u8, seq: u64, s: Seq<u8>, body: Body)
    requires
        body is Data || body is RelayForward || body is Disconnect || body is Keepalive || body is KeepaliveAck,
        read_content(kind, seq, s) == Some(body),
    ensures
        kind == body.kind(),
        seq == body.seq(),
        body.content().len() <= s.len(),
        s.take(body.content().len() as int) == body.content(),
{
    match body {
        Body::Data { ip_packet, .. } => {
            lemma_read_field(s);
        },
        Body::RelayForward { next_peer_id, inner_packet, .. } => {
            lemma_from_be32(s);
            lemma_read_field(s.skip(4));
            let n = 4 + inner_packet.len();
            assert(s.take(4 + n as int) =~= s.take(4) + s.skip(4).take(n as int));
        },
        Body::Disconnect { .. } => {
            assert(s.take(0) =~= body.content());
        },
        _ => {
            lemma_from_be64(s);
        },
    }
}

proof fn lemma_read_field(s: Seq<u8>)
    requires
        read_field(s) is Some,
    ensures
        ({
            let content = (read_field(s)->0).0;
            &&& content.len() <= u32::MAX
            &&& 4 + content.len() <= s.len()
            &&& field(content).len() == 4 + content.len()
            &&& s.take(4 + content.len() as int) == field(content)
        }),
{
    let content = (read_field(s)->0).0;
    lemma_from_be32(s);
    assert(s.take(4 + content.len() as int) =~= s.take(4) + content);
}

proof fn lemma_from_be64(s: Seq<u8>)
    requires
        s.len() >= 8,
    ensures
        be64(from_be64(s)) == s.take(8),
{
    let (hi, lo) = (from_be32(s), from_be32(s.skip(4)));
    lemma_from_be32(s);
    lemma_from_be32(s.skip(4));
    assert(from_be64(s) / 0x1_0000_0000 == hi && from_be64(s) % 0x1_0000_0000 == lo);
    assert(be64(from_be64(s)) =~= s.take(8));
}

/// Whether two different inputs give the same key, which is a collision of BLAKE3.
pub open spec fn keys_collide(context: Seq<char>, material: Seq<u8>, other: Seq<char>, other_material: Seq<u8>) -> bool {
    &&& context != other || material != other_material
    &&& blake3_derived(context, material) == blake3_derived(other, other_material)
}

/// Whether two different messages have the same hash, which is a collision of BLAKE3.
pub open spec fn hashes_collide(message: Seq<u8>, other: Seq<u8>) -> bool {
    message != other && blake3_hashed(message) == blake3_hashed(other)
}

/// Whether a collision of BLAKE3 is at hand.
pub open spec fn collision_found() -> bool {
    ||| exists|c: Seq<char>, m: Seq<u8>, d: Seq<char>, n: Seq<u8>| #[trigger] keys_collide(c, m, d, n)
    ||| exists|m: Seq<u8>, n: Seq<u8>| #[trigger] hashes_collide(m, n)
}

/// A session key belongs to one shared secret, one first message and one answer: whoever gets
/// it from others has found a collision of BLAKE3.
pub proof fn law_session_key_is_of_one_handshake(
    secret: Seq<u8>,
    first: Seq<u8>,
    answer: Seq<u8>,
    other_secret: Seq<u8>,
    other_first: Seq<u8>,
    other_answer: Seq<u8>,
)
    requires
        session_v2(secret, first, answer) == session_v2(other_secret, other_first, other_answer),
        secret.len() == 64,
        other_secret.len() == 64,
        blake3_hashed(first).len() == 32,
        blake3_hashed(other_first).len() == 32,
    ensures
        secret == other_secret && first == other_first && answer == other_answer || collision_found(),
{
    let label = "liteway-session-v2"@;
    let m = secret + blake3_hashed(first) + blake3_hashed(answer);
    let n = other_secret + blake3_hashed(other_first) + blake3_hashed(other_answer);
    if m != n {
        assert(keys_collide(label, m, label, n));
    } else {
        assert(m.take(64) =~= secret);
        assert(n.take(64) =~= other_secret);
        assert(m.subrange(64, 96) =~= blake3_hashed(first));
        assert(n.subrange(64, 96) =~= blake3_hashed(other_first));
        assert(m.skip(96) =~= blake3_hashed(answer));
        assert(n.skip(96) =~= blake3_hashed(other_answer));
        if first != other_first {
            assert(hashes_collide(first, other_first));
        } else if answer != other_answer {
            assert(hashes_collide(answer, other_answer));
        }
    }
}

/// A traffic key belongs to one session key, one sender and one receiver: whoever gets it for
/// others, such as for the way back, has found a collision of BLAKE3.
pub proof fn law_traffic_key_is_of_one_direction(
    session_key: Seq<u8>,
    src: u32,
    dst: u32,
    other_key: Seq<u8>,
    other_src: u32,
    other_dst: u32,
)
    requires
        traffic_key_of(session_key, src, dst) == traffic_key_of(other_key, other_src, other_dst),
        session_key.len() == 32,
        other_key.len() == 32,
    ensures
        session_key == other_key && src == other_src && dst == other_dst || collision_found(),
{
    let label = "liteway-traffic-key-v2"@;
    let m = session_key + be32(src) + be32(dst);
    let n = other_key + be32(other_src) + be32(other_dst);
    if m != n {
        assert(keys_collide(label, m, label, n));
    } else {
        assert(m.take(32) =~= session_key);
        assert(n.take(32) =~= other_key);
        assert(m.subrange(32, 36) =~= be32(src));
        assert(n.subrange(32, 36) =~= be32(other_src));
        assert(m.skip(36) =~= be32(dst));
        assert(n.skip(36) =~= be32(other_dst));
        lemma_digits(src);
        lemma_digits(other_src);
        lemma_digits(dst);
        lemma_digits(other_dst);
    }
}

/// A packet key belongs to one traffic key, and a network key to one secret: whoever gets one
/// of them from another has found a collision of BLAKE3.
pub proof fn law_keys_are_of_one_secret(key: Seq<u8>, other: Seq<u8>)
    requires
        key != other,
    ensures
        packet_key_of(key) == packet_key_of(other) ==> collision_found(),
        network_key_of(key) == network_key_of(other) ==> collision_found(),
        session_key_of(key) == session_key_of(other) ==> collision_found(),
{
    if packet_key_of(key) == packet_key_of(other) {
        assert(keys_collide("liteway-packet-key-v2"@, key, "liteway-packet-key-v2"@, other));
    }
    if network_key_of(key) == network_key_of(other) {
        assert(keys_collide("liteway-network-key-v1"@, key, "liteway-network-key-v1"@, other));
    }
    if session_key_of(key) == session_key_of(other) {
        assert(keys_collide("liteway-session-key-v1"@, key, "liteway-session-key-v1"@, other));
    }
}

/// No key serves two purposes: the keys of packets, of a direction, of a session and of the
/// network differ, whatever they come from, unless a collision of BLAKE3 is found.
pub proof fn law_keys_serve_one_purpose(a: Seq<u8>, b: Seq<u8>, secret: Seq<u8>, first: Seq<u8>, answer: Seq<u8>, src: u32, dst: u32)
    ensures
        packet_key_of(a) == traffic_key_of(b, src, dst) ==> collision_found(),
        packet_key_of(a) == session_v2(secret, first, answer) ==> collision_found(),
        packet_key_of(a) == network_key_of(b) ==> collision_found(),
        traffic_key_of(b, src, dst) == session_v2(secret, first, answer) ==> collision_found(),
        traffic_key_of(b, src, dst) == network_key_of(a) ==> collision_found(),
        session_v2(secret, first, answer) == network_key_of(a) ==> collision_found(),
{
    reveal_strlit("liteway-packet-key-v2");
    reveal_strlit("liteway-traffic-key-v2");
    reveal_strlit("liteway-session-v2");
    reveal_strlit("liteway-network-key-v1");
    let (p, t, s, n) = (
        "liteway-packet-key-v2"@,
        "liteway-traffic-key-v2"@,
        "liteway-session-v2"@,
        "liteway-network-key-v1"@,
    );
    assert(p.len() == 21 && t.len() == 22 && s.len() == 18 && n.len() == 22);
    assert(t[8] == 't' && n[8] == 'n');
    let tm = b + be32(src) + be32(dst);
    let sm = secret + blake3_hashed(first) + blake3_hashed(answer);
    if packet_key_of(a) == traffic_key_of(b, src, dst) {
        assert(keys_collide(p, a, t, tm));
    }
    if packet_key_of(a) == session_v2(secret, first, answer) {
        assert(keys_collide(p, a, s, sm));
    }
    if packet_key_of(a) == network_key_of(b) {
        assert(keys_collide(p, a, n, b));
    }
    if traffic_key_of(b, src, dst) == session_v2(secret, first, answer) {
        assert(keys_collide(t, tm, s, sm));
    }
    if traffic_key_of(b, src, dst) == network_key_of(a) {
        assert(keys_collide(t, tm, n, a));
    }
    if session_v2(secret, first, answer) == network_key_of(a) {
        assert(keys_collide(s, sm, n, a));
    }
}

/// Whether two different inputs have the same keyed hash, which is a collision of BLAKE3.
pub open spec fn keyed_hashes_collide(key: Seq<u8>, input: Seq<u8>, other_key: Seq<u8>, other_input: Seq<u8>) -> bool {
    &&& key != other_key || input != other_input
    &&& blake3_keyed(key, input) == blake3_keyed(other_key, other_input)
}

/// The mask of a header belongs to one nonce and one network: whoever gets it for others has
/// found a collision of BLAKE3.
pub proof fn law_mask_is_of_one_nonce_and_network(nonce: Seq<u8>, network: Seq<u8>, other_nonce: Seq<u8>, other_network: Seq<u8>)
    requires
        header_mask(nonce, network) == header_mask(other_nonce, other_network),
    ensures
        nonce == other_nonce && network == other_network || collision_found() || exists|
            k: Seq<u8>,
            i: Seq<u8>,
            l: Seq<u8>,
            j: Seq<u8>,
        | #[trigger] keyed_hashes_collide(k, i, l, j),
{
    let label = "liteway-network-header-mask-v1"@;
    let key = blake3_derived(label, network);
    let other_key = blake3_derived(label, other_network);
    if key != other_key || nonce != other_nonce {
        assert(keyed_hashes_collide(key, nonce, other_key, other_nonce));
    } else if network != other_network {
        assert(keys_collide(label, network, label, other_network));
    }
}

/// A body is short enough for a packet if it takes at most 274,877,906,785 bytes.
pub proof fn law_what_fits_a_packet(body: Body)
    ensures
        body.sealable() <==> body.bytes().len() <= 274_877_906_785,
{
}

} // verus!
