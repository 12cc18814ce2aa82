//! What holds between the operations of a node, and between two nodes.
use crate::addr::{IpAddr, IpNetwork, SocketAddr};
use crate::cert::{node_id, CaVerifyKey, Cert};
use crate::crypto::hybrid_kem::{
    encapsulated_from, mlkem768_decapsulated, mlkem768_encapsulated, mlkem768_public, x25519_public,
};
use crate::crypto::hybrid_sig::HybridSigningKey;
use crate::handshake::{
    is_answer, is_completion, is_honest, law_answer_is_accepted, law_answer_names_the_session, law_both_sides_agree,
    second_error, second_hello, Encapsulation, HandshakeError, HandshakeInitiate, HandshakeResponse, HandshakeResult,
};
use crate::mesh::connect::{JoinError, Joined};
use crate::mesh::deliver::{introduction_error, response_about};
use crate::mesh::outbound::overlay_of;
use crate::mesh::receive::Step;
use crate::mesh::{
    is_authorized_list, is_new_peer, is_packet, message_to, next_seq, with_routes, Identity, MeshState, PeerState,
};
use crate::net::node_ip_check;
use crate::packet::{
    law_decryption_returns_body, law_sealed_packet_opens, packet_key_of, session_header, wire_header, Body, DataPacket,
    PADDING_LIMIT,
};
use crate::replay::law_seen_is_refused;
use crate::route::{
    all_valid, any_holds, authorized, cert_ip, is_best, is_rising, law_removed_peer_is_behind_nothing, leads_elsewhere,
    lemma_route_of, lemma_single, route_of, single,
};
use vstd::prelude::*;

verus! {

/// After two nodes have taken the same session key from a handshake, each encrypts what it
/// sends with the key that the other decrypts it with.
pub proof fn law_directions_match(
    a: u32,
    b: u32,
    sk: Seq<u8>,
    b_at_a: PeerState,
    cert_b: Cert,
    addr_b: SocketAddr,
    relay_b: bool,
    tx_a: u32,
    rx_a: u32,
    now_a: u64,
    a_at_b: PeerState,
    cert_a: Cert,
    addr_a: SocketAddr,
    relay_a: bool,
    tx_b: u32,
    rx_b: u32,
    now_b: u64,
)
    requires
        is_new_peer(b_at_a, a, b, sk, cert_b, addr_b, relay_b, tx_a, rx_a, now_a),
        is_new_peer(a_at_b, b, a, sk, cert_a, addr_a, relay_a, tx_b, rx_b, now_b),
    ensures
        b_at_a.tx_key@ == a_at_b.rx_key@,
        b_at_a.rx_key@ == a_at_b.tx_key@,
{
}

/// A packet that one node sends to another, under the keys and the session of the other's
/// state, is recognised there as a packet of a session, and opens to what was sent.
pub proof fn law_sent_packet_is_opened(
    wire: Seq<u8>,
    body: Body,
    to: PeerState,
    receiver: MeshState,
    ident: Identity,
    sender_id: u32,
)
    requires
        is_packet(wire, message_to(ident.our_id, to, body), ident.network_key@),
        body.fits(),
        receiver.rx_sessions.contains_key(to.tx_session_id),
        receiver.rx_sessions[to.tx_session_id] == sender_id,
        receiver.peers.contains_key(sender_id),
        receiver.peers[sender_id].rx_key@ == to.tx_key@,
    ensures
        receiver.step(ident, wire) == Step::Session,
        receiver.opened(ident, wire) == Some((sender_id, body)),
{
    let message = message_to(ident.our_id, to, body);
    let pkt = choose|pkt: DataPacket|
        {
            &&& wire == #[trigger] pkt.wire()
            &&& pkt.carries(
                message.body,
                message.dst_peer_id,
                message.session_id,
                ident.network_key@,
                message.key,
            )
        };
    law_decryption_returns_body(pkt, body, ident.our_id, to.tx_session_id, ident.network_key@, to.tx_key@);
    lemma_header_of_packet(pkt, body, ident.our_id, to.tx_session_id, ident.network_key@, to.tx_key@);
}

/// The header of a packet of a session can be read on the wire.
pub proof fn lemma_header_of_packet(
    pkt: DataPacket,
    body: Body,
    dst_peer_id: u32,
    session_id: u32,
    network_key: Seq<u8>,
    session_key: Seq<u8>,
)
    requires
        pkt.carries(body, dst_peer_id, session_id, network_key, session_key),
    ensures
        wire_header(pkt.wire(), network_key) == Some(session_header(body.kind(), dst_peer_id, session_id)),
{
    let header = session_header(body.kind(), dst_peer_id, session_id);
    let padding = choose|padding: Seq<u8>|
        {
            &&& padding.len() < PADDING_LIMIT
            &&& pkt.seals(header, #[trigger] (body.bytes() + padding), network_key, packet_key_of(session_key))
        };
    law_sealed_packet_opens(pkt, header, body.bytes() + padding, network_key, packet_key_of(session_key));
}

/// A packet for another node is passed on or dropped by its header alone: a relay reads no
/// more of it than that.
pub proof fn law_relay_goes_by_the_header(state: MeshState, ident: Identity, a: Seq<u8>, b: Seq<u8>)
    requires
        wire_header(a, ident.network_key@) == wire_header(b, ident.network_key@),
    ensures
        state.step(ident, a) == state.step(ident, b),
{
}

/// A peer that was taken out is behind no address, and no session leads to it.
pub proof fn law_removed_peer_is_gone(state: MeshState, id: u32, ip: IpAddr, session: u32)
    requires
        state.consistent(),
    ensures
        !state.without(id).peers.contains_key(id),
        route_of(state.without(id).routes, ip) != Some(id),
        state.without(id).rx_sessions.contains_key(session) ==> state.without(id).rx_sessions[session] != id,
{
    law_removed_peer_is_behind_nothing(state.routes, id, ip);
    if state.rx_sessions.contains_key(session) {
        assert(state.peers.contains_key(state.rx_sessions[session]));
    }
}

/// A packet that was accepted once is refused from then on.
pub proof fn law_accepted_packet_is_refused_later(state: MeshState, id: u32, seq: u64, now: u64)
    requires
        state.peers.contains_key(id),
    ensures
        state.touched(id, seq, now).peers[id].rx_replay.refuses(seq),
{
    law_seen_is_refused(state.peers[id].rx_replay, seq);
}

/// A peer that has just joined is reached by the session that it was given, and by nothing
/// that led to it before.
pub proof fn law_new_peer_is_reached_by_its_session(state: MeshState, id: u32, peer: PeerState, session: u32)
    requires
        state.consistent(),
    ensures
        state.with_peer(id, peer).rx_sessions.contains_key(peer.rx_session_id),
        state.with_peer(id, peer).rx_sessions[peer.rx_session_id] == id,
        session != peer.rx_session_id && state.with_peer(id, peer).rx_sessions.contains_key(session)
            ==> state.with_peer(id, peer).rx_sessions[session] != id,
{
    if state.rx_sessions.contains_key(session) {
        assert(state.peers.contains_key(state.rx_sessions[session]));
    }
}

/// Every route of a peer is in the table after they were added, if none occurs twice.
pub proof fn lemma_routes_are_added(table: Seq<(IpNetwork, u32)>, routes: Seq<IpNetwork>, id: u32, k: int)
    requires
        0 <= k < routes.len(),
        is_rising(routes),
    ensures
        with_routes(table, routes, id).contains((routes[k], id)),
    decreases routes.len(),
{
    let before = with_routes(table, routes.drop_last(), id);
    let after = with_routes(table, routes, id);
    let last = routes.last();
    let keep = leads_elsewhere(last);
    if k == routes.len() - 1 {
        assert(after[after.len() - 1] == (last, id));
    } else {
        let rest = routes.drop_last();
        assert(is_rising(rest));
        lemma_routes_are_added(table, rest, id, k);
        assert(routes[k].before(last));
        lemma_filter_keeps(before, keep, (routes[k], id));
        let i = choose|i: int| 0 <= i < before.filter(keep).len() && before.filter(keep)[i] == (routes[k], id);
        assert(after[i] == (routes[k], id));
    }
}

proof fn lemma_filter_keeps(
    all: Seq<(IpNetwork, u32)>,
    keep: spec_fn((IpNetwork, u32)) -> bool,
    r: (IpNetwork, u32),
)
    requires
        all.contains(r),
        keep(r),
    ensures
        all.filter(keep).contains(r),
    decreases all.len(),
{
    reveal(Seq::filter);
    let rest = all.drop_last();
    if all.last() == r {
        assert(all.filter(keep)[rest.filter(keep).len() as int] == r);
    } else {
        let i = choose|i: int| 0 <= i < all.len() && all[i] == r;
        assert(rest[i] == r);
        lemma_filter_keeps(rest, keep, r);
        let j = choose|j: int| 0 <= j < rest.filter(keep).len() && rest.filter(keep)[j] == r;
        assert(all.filter(keep)[j] == r);
    }
}

/// A node that has joined is registered by the address in its certificate: whoever looks
/// for that address finds the node, whatever was known before.
pub proof fn law_joined_node_is_registered(state: MeshState, id: u32, peer: PeerState, ip: IpAddr)
    requires
        state.consistent(),
        is_authorized_list(peer.routes@, peer.cert),
        all_valid(peer.routes@),
        cert_ip(peer.cert) == Some(ip),
    ensures
        route_of(state.with_peer(id, peer).routes, ip) == Some(id),
{
    state.law_with_peer_is_consistent(id, peer);
    let table = state.with_peer(id, peer).routes;
    let own = single(ip);
    assert(authorized(peer.cert, own));
    assert(peer.routes@.contains(own));
    let k = choose|k: int| 0 <= k < peer.routes@.len() && peer.routes@[k] == own;
    lemma_routes_are_added(state.routes, peer.routes@, id, k);
    let i = choose|i: int| 0 <= i < table.len() && table[i] == (own, id);
    lemma_single(own, ip);
    assert forall|j: int| 0 <= j < table.len() && (#[trigger] table[j]).0.holds(ip) implies {
        &&& table[j].0.prefix <= table[i].0.prefix
        &&& j > i ==> table[j].0.prefix < table[i].0.prefix
    } by {
        lemma_single(table[j].0, ip);
        if table[j].0 == own && j > i {
            assert(table[i].0 != table[j].0);
        }
    }
    assert(is_best(table, ip, i));
    lemma_route_of(table, ip, i);
}

/// A handshake is tried through a relay once.
pub proof fn law_relay_is_tried_once(
    state: MeshState,
    session_id: u32,
    relay_addr: SocketAddr,
    now: u64,
    timeout: u64,
    later: u64,
)
    requires
        state.pending.contains_key(session_id),
    ensures
        !state.relayed(session_id, relay_addr, now).wants_relay(session_id, timeout, later),
{
}

/// An address that a node can be given never breaks discovery.
pub proof fn law_accepted_address_allows_discovery(ip: Seq<char>, has_lighthouses: bool)
    requires
        node_ip_check(ip) is Ok,
    ensures
        overlay_of(ip, has_lighthouses) is Network,
{
}

/// A handshake opens a session: what the initiator `a` sends to the responder `b`, once both
/// have taken the same session key from it and the initiator sends on the session that the
/// responder has named, opens at the responder to what was sent.
pub proof fn law_handshake_opens_a_session(
    state: MeshState,
    ident_b: Identity,
    a: u32,
    sk: Seq<u8>,
    b_at_a: PeerState,
    cert_b: Cert,
    addr_b: SocketAddr,
    relay_b: bool,
    rx_a: u32,
    now_a: u64,
    a_at_b: PeerState,
    cert_a: Cert,
    addr_a: SocketAddr,
    relay_a: bool,
    rx_b: u32,
    now_b: u64,
    wire: Seq<u8>,
    body: Body,
)
    requires
        state.consistent(),
        is_new_peer(b_at_a, a, ident_b.our_id, sk, cert_b, addr_b, relay_b, rx_b, rx_a, now_a),
        is_new_peer(a_at_b, ident_b.our_id, a, sk, cert_a, addr_a, relay_a, rx_a, rx_b, now_b),
        is_packet(wire, message_to(ident_b.our_id, b_at_a, body), ident_b.network_key@),
        body.fits(),
    ensures
        state.joined(a, a_at_b, addr_a).step(ident_b, wire) == Step::Session,
        state.joined(a, a_at_b, addr_a).opened(ident_b, wire) == Some((a, body)),
{
    law_new_peer_is_reached_by_its_session(state, a, a_at_b, rx_b);
    law_sent_packet_is_opened(wire, body, b_at_a, state.joined(a, a_at_b, addr_a), ident_b, a);
}

/// A lighthouse tells whoever asks for the address of a node that has joined where the node
/// is and which certificate it has.
pub proof fn law_registered_node_is_introduced(state: MeshState, id: u32, peer: PeerState, ip: IpAddr, asking: u32)
    requires
        state.consistent(),
        is_authorized_list(peer.routes@, peer.cert),
        all_valid(peer.routes@),
        cert_ip(peer.cert) == Some(ip),
        state.with_peer(id, peer).peers.contains_key(asking),
    ensures
        ({
            let after = state.with_peer(id, peer);
            let asks = after.peers[asking];
            after.query_messages(asking, ip)[0] == message_to(
                asking,
                asks,
                response_about(next_seq(asks.tx_seq), ip, id, peer),
            )
        }),
{
    law_joined_node_is_registered(state, id, peer, ip);
}

/// A response about the owner of a good certificate, for the address in that certificate, is
/// followed.
pub proof fn law_honest_introduction_is_followed(cert: Cert, ident: Identity, ip: IpAddr, now: u64)
    requires
        cert.valid_at(ident.ca_vk, now as int),
        cert_ip(cert) == Some(ip),
    ensures
        introduction_error(cert, ident, node_id(cert.body.keys), ip, now) is None,
{
    lemma_own_address(cert, ip);
    assert(authorized(cert, single(ip)) && single(ip).holds(ip));
}

/// The network of the address in a certificate is authorized and holds the address.
proof fn lemma_own_address(cert: Cert, ip: IpAddr)
    requires
        cert_ip(cert) == Some(ip),
    ensures
        authorized(cert, single(ip)),
        single(ip).holds(ip),
{
    assert(single(ip).prefix == ip.width());
    lemma_single(single(ip), ip);
}

/// A peer may send IP packets from the address in its certificate.
pub proof fn law_own_address_may_be_used(peer: PeerState, ip: IpAddr)
    requires
        is_authorized_list(peer.routes@, peer.cert),
        cert_ip(peer.cert) == Some(ip),
    ensures
        any_holds(peer.routes@, ip),
{
    lemma_own_address(peer.cert, ip);
    assert(peer.routes@.contains(single(ip)));
    let k = choose|k: int| 0 <= k < peer.routes@.len() && peer.routes@[k] == single(ip);
    assert(peer.routes@[k].holds(ip));
}

/// The answer to a first message is recognised by the node that waits for it as an answer to
/// that message.
pub proof fn law_answer_finds_its_handshake(
    state: MeshState,
    ident: Identity,
    init: HandshakeInitiate,
    resp: HandshakeResponse,
    enc: Encapsulation,
    cert: Cert,
    sk: HybridSigningKey,
    relay_flag: bool,
    sent_at: u64,
    random: Seq<u8>,
    padding: Seq<u8>,
)
    requires
        is_answer(resp, init.msg@, enc, cert, sk, ident.network_key@, relay_flag, sent_at, random, padding),
        resp.peer_rx_session_id == init.my_rx_session_id,
    ensures
        state.step(ident, resp.msg@) == Step::Handshake2(init.my_rx_session_id),
{
    law_answer_names_the_session(
        resp,
        init.msg@,
        enc,
        cert,
        sk,
        ident.network_key@,
        relay_flag,
        sent_at,
        random,
        padding,
    );
}

/// A node that waits for the answer to its first message joins an honest responder: the
/// responder becomes its peer, and it sends on the session that the responder receives on.
pub proof fn law_honest_answer_joins(
    state: MeshState,
    ident: Identity,
    init: HandshakeInitiate,
    resp: HandshakeResponse,
    enc: Encapsulation,
    cert: Cert,
    sk: HybridSigningKey,
    relay_flag: bool,
    sent_at: u64,
    random: Seq<u8>,
    padding: Seq<u8>,
    src: SocketAddr,
    now: u64,
    after: MeshState,
    r: Result<Joined, JoinError>,
)
    requires
        is_answer(resp, init.msg@, enc, cert, sk, ident.network_key@, relay_flag, sent_at, random, padding),
        is_honest(
            second_hello(
                cert,
                relay_flag,
                enc.eph_x25519_pk@,
                enc.mlkem_ct@,
                init.msg@,
                resp.my_rx_session_id,
                random,
                sent_at,
            ),
            sk,
            cert,
            ident.ca_vk,
            now,
        ),
        state.pending.contains_key(init.my_rx_session_id),
        state.pending[init.my_rx_session_id].initiate == init,
        state.answer_taken(ident, src, resp.msg@, init.my_rx_session_id, Some(cert), now, after, r),
    ensures
        r is Ok,
        r->Ok_0.peer_id == node_id(cert.body.keys),
        exists|peer: PeerState, result: HandshakeResult|
            {
                &&& is_completion(result, resp.msg@, Some(cert), init, ident.network_key@)
                &&& after == state.without_pending(init.my_rx_session_id).joined(node_id(cert.body.keys), peer, src)
                &&& #[trigger] is_new_peer(
                    peer,
                    ident.our_id,
                    node_id(cert.body.keys),
                    result.session_key@,
                    cert,
                    src,
                    relay_flag,
                    resp.my_rx_session_id,
                    init.my_rx_session_id,
                    now,
                )
            },
{
    law_answer_is_accepted(
        resp,
        init.msg@,
        enc,
        cert,
        sk,
        ident.network_key@,
        relay_flag,
        sent_at,
        random,
        padding,
        ident.ca_vk,
        now,
    );
    let before = state.without_pending(init.my_rx_session_id);
    let error = second_error(resp.msg@, init.msg@, ident.network_key@, Some(cert), ident.ca_vk, now);
    let outcome = choose|outcome: Result<HandshakeResult, HandshakeError>|
        {
            &&& outcome is Err == error is Some
            &&& outcome matches Err(e) ==> error == Some(e)
            &&& outcome matches Ok(result) ==> is_completion(
                result,
                resp.msg@,
                Some(cert),
                init,
                ident.network_key@,
            )
            &&& #[trigger] before.finished(ident, src, now, outcome, after, r)
        };
    let result = outcome->Ok_0;
    let id = node_id(cert.body.keys);
    let peer = choose|peer: PeerState|
        {
            &&& after == #[trigger] before.joined(id, peer, src)
            &&& is_new_peer(
                peer,
                ident.our_id,
                id,
                result.session_key@,
                result.peer_cert,
                src,
                result.peer_is_relay,
                result.peer_rx_session_id,
                result.my_rx_session_id,
                now,
            )
            &&& r->Ok_0.routes@ == peer.routes@
        };
    assert(is_new_peer(
        peer,
        ident.our_id,
        id,
        result.session_key@,
        cert,
        src,
        relay_flag,
        resp.my_rx_session_id,
        init.my_rx_session_id,
        now,
    ));
}

/// After an honest handshake, what the initiator sends to the responder opens at the
/// responder: both hold the same session key, and the initiator sends on the session that
/// the responder has named. The one exception is a ciphertext for which ML-KEM decapsulation
/// does not return the responder's shared key.
pub proof fn law_finished_handshake_carries_packets(
    init: HandshakeInitiate,
    resp: HandshakeResponse,
    result: HandshakeResult,
    enc: Encapsulation,
    cert_b: Cert,
    sk_b: HybridSigningKey,
    relay_b: bool,
    sent_at: u64,
    random: Seq<u8>,
    padding: Seq<u8>,
    ca_vk: CaVerifyKey,
    eph_sk: Seq<u8>,
    m: Seq<u8>,
    a: u32,
    b_at_a: PeerState,
    addr_b: SocketAddr,
    now_a: u64,
    state_b: MeshState,
    ident_b: Identity,
    a_at_b: PeerState,
    cert_a: Cert,
    addr_a: SocketAddr,
    relay_a: bool,
    now_b: u64,
    wire: Seq<u8>,
    body: Body,
)
    requires
        state_b.consistent(),
        is_answer(resp, init.msg@, enc, cert_b, sk_b, ident_b.network_key@, relay_b, sent_at, random, padding),
        is_honest(
            second_hello(
                cert_b,
                relay_b,
                enc.eph_x25519_pk@,
                enc.mlkem_ct@,
                init.msg@,
                resp.my_rx_session_id,
                random,
                sent_at,
            ),
            sk_b,
            cert_b,
            ca_vk,
            now_a,
        ),
        encapsulated_from(
            eph_sk,
            m,
            x25519_public(init.eph_x25519_sk@),
            mlkem768_public(init.eph_mlkem_sk.seed@),
            enc.eph_x25519_pk@,
            enc.hybrid_ss@,
            enc.mlkem_ct@,
        ),
        mlkem768_decapsulated(init.eph_mlkem_sk.seed@, enc.mlkem_ct@) == mlkem768_encapsulated(
            mlkem768_public(init.eph_mlkem_sk.seed@),
            m,
        ).1,
        is_completion(result, resp.msg@, Some(cert_b), init, ident_b.network_key@),
        is_new_peer(
            b_at_a,
            a,
            ident_b.our_id,
            result.session_key@,
            cert_b,
            addr_b,
            relay_b,
            result.peer_rx_session_id,
            result.my_rx_session_id,
            now_a,
        ),
        is_new_peer(
            a_at_b,
            ident_b.our_id,
            a,
            resp.session_key@,
            cert_a,
            addr_a,
            relay_a,
            resp.peer_rx_session_id,
            resp.my_rx_session_id,
            now_b,
        ),
        resp.peer_rx_session_id == init.my_rx_session_id,
        is_packet(wire, message_to(ident_b.our_id, b_at_a, body), ident_b.network_key@),
        body.fits(),
    ensures
        state_b.joined(a, a_at_b, addr_a).opened(ident_b, wire) == Some((a, body)),
{
    law_both_sides_agree(
        init,
        resp,
        result,
        enc,
        cert_b,
        sk_b,
        ident_b.network_key@,
        relay_b,
        sent_at,
        random,
        padding,
        ca_vk,
        now_a,
        eph_sk,
        m,
    );
    law_handshake_opens_a_session(
        state_b,
        ident_b,
        a,
        resp.session_key@,
        b_at_a,
        cert_b,
        addr_b,
        relay_b,
        init.my_rx_session_id,
        now_a,
        a_at_b,
        cert_a,
        addr_a,
        relay_a,
        resp.my_rx_session_id,
        now_b,
        wire,
        body,
    );
}

} // verus!
