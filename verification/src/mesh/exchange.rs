//! What peers say to one another beside IP packets, and what comes of it: introductions,
//! keepalives, packets to pass on, and farewells.
use crate::addr::{IpAddr, SocketAddr};
use crate::cert::{node_id, Cert};
use crate::frag::room::law_fragment_layout;
use crate::frag::{fragment_plain, is_fragmentation, pieces, Pending};
use crate::handshake::{law_sealed_handshake_opens, well_framed, HandshakeError, HandshakeResponse};
use crate::mesh::connect::{Answer, JoinError, Joined};
use crate::mesh::deliver::Delivery;
use crate::mesh::laws::lemma_header_of_packet;
use crate::mesh::outbound::KeepaliveSent;
use crate::mesh::reach::{is_next, says};
use crate::mesh::receive::{Reception, Step};
use crate::mesh::{
    is_packet, message_to, next_seq, sends, sends_all, Identity, MeshState, Message, Outgoing, PeerState,
};
use crate::packet::{packet_key_of, read_body, wire_header, wire_opened, Body, DataPacket, NetworkHeader};
use crate::route::grants::is_own_address;
use crate::route::lookup::law_removal_leaves_the_rest;
use crate::route::{cert_ip, route_of};
use vstd::prelude::*;

verus! {

/// What a lighthouse says of the node `about`: its endpoint, its certificate, and whether it
/// relays.
pub open spec fn introduces(state: MeshState, seq: u64, target_ip: IpAddr, about: u32) -> Body {
    Body::LighthouseResponse {
        seq,
        target_ip,
        peer_id: about,
        peer_addr: state.peers[about].addr,
        peer_cert: state.peers[about].cert.json(),
        peer_is_relay: state.peers[about].is_relay,
    }
}

/// A lighthouse that knows who is behind an address introduces the two ends to each other: the
/// one that asks learns of the other, under the address that it asked for, and the other of
/// the one that asks, under that one's own address. A node that asks for an address behind
/// itself, or that has no address, is answered alone.
#[verifier::rlimit(50)]
#[verifier::spinoff_prover]
pub proof fn law_lighthouse_introduces_both_ends(
    state: MeshState,
    ident: Identity,
    id: u32,
    query_seq: u64,
    target_ip: IpAddr,
    src: SocketAddr,
    now: u64,
    after: MeshState,
    r: Delivery,
    found: u32,
    own: Option<IpAddr>,
)
    requires
        ident.am_lighthouse,
        state.peers.contains_key(id),
        state.peers.contains_key(found),
        route_of(state.routes, target_ip) == Some(found),
        !state.peers[id].rx_replay.refuses(query_seq),
        state.taken(ident, id, Body::LighthouseQuery { seq: query_seq, target_ip }, None, src, now, after, r),
        own matches Some(ip) ==> is_own_address(state.peers[id].cert, ip),
        own is None ==> forall|ip: IpAddr| !is_own_address(state.peers[id].cert, ip),
    ensures
        r is Send,
        r->Send_0@.len() == (if found != id && own is Some {
            2
        } else {
            1int
        }),
        is_next(state, id, after.peers[id].tx_seq),
        says(state, ident, id, introduces(state, after.peers[id].tx_seq, target_ip, found), r->Send_0@[0]),
        found != id && own is Some ==> {
            &&& is_next(state, found, after.peers[found].tx_seq)
            &&& says(state, ident, found, introduces(state, after.peers[found].tx_seq, own->0, id), r->Send_0@[1])
        },
{
    let asking = state.peers[id].cert;
    if own is None && cert_ip(asking) is Some {
        assert(is_own_address(asking, cert_ip(asking)->0));
    }
    assert(cert_ip(asking) == own);
    let heard = state.touched(id, query_seq, now);
    let messages = heard.query_messages(id, target_ip);
    let out = r->Send_0@;
    assert(heard.peers[found].cert == state.peers[found].cert);
    assert(heard.peers[id].cert == asking);
    lemma_introductions(state, heard, ident, id, target_ip, found, out);
}

/// The messages of a lighthouse that has just heard of the node that asks, in terms of what it
/// knew before.
#[verifier::rlimit(50)]
#[verifier::spinoff_prover]
proof fn lemma_introductions(
    state: MeshState,
    heard: MeshState,
    ident: Identity,
    id: u32,
    target_ip: IpAddr,
    found: u32,
    out: Seq<Outgoing>,
)
    requires
        state.peers.contains_key(id),
        state.peers.contains_key(found),
        route_of(heard.routes, target_ip) == Some(found),
        heard.peers.contains_key(id),
        heard.peers.contains_key(found),
        same_for_sending(state.peers[id], heard.peers[id]),
        same_for_sending(state.peers[found], heard.peers[found]),
        sends_all(out, heard.query_messages(id, target_ip), ident.network_key@),
    ensures
        ({
            let after = heard.after_query(id, target_ip);
            let own = cert_ip(state.peers[id].cert);
            &&& is_next(state, id, after.peers[id].tx_seq)
            &&& says(state, ident, id, introduces(state, after.peers[id].tx_seq, target_ip, found), out[0])
            &&& out.len() == (if found != id && own is Some {
                2
            } else {
                1int
            })
            &&& found != id && own is Some ==> {
                &&& is_next(state, found, after.peers[found].tx_seq)
                &&& says(state, ident, found, introduces(state, after.peers[found].tx_seq, own->0, id), out[1])
            }
        }),
{
    let after = heard.after_query(id, target_ip);
    let own = cert_ip(state.peers[id].cert);
    let messages = heard.query_messages(id, target_ip);
    let seq = next_seq(state.peers[id].tx_seq);
    assert(after.peers[id].tx_seq == seq);
    assert(messages[0] == message_to(id, heard.peers[id], introduces(state, seq, target_ip, found)));
    assert(sends(out[0], messages[0], ident.network_key@));
    if found != id && own is Some {
        let other = next_seq(state.peers[found].tx_seq);
        assert(after.peers[found].tx_seq == other);
        assert(messages[1] == message_to(found, heard.peers[found], introduces(state, other, own->0, id)));
        assert(sends(out[1], messages[1], ident.network_key@));
    }
}

/// Whether two peers get the same packets and are told of in the same words.
spec fn same_for_sending(a: PeerState, b: PeerState) -> bool {
    &&& a.addr == b.addr
    &&& a.cert == b.cert
    &&& a.is_relay == b.is_relay
    &&& a.tx_session_id == b.tx_session_id
    &&& a.tx_key == b.tx_key
    &&& a.tx_seq == b.tx_seq
}

/// A lighthouse that knows nobody behind an address says so to the one that asks, and a node
/// that is no lighthouse says nothing.
pub proof fn law_unknown_address_is_not_found(
    state: MeshState,
    ident: Identity,
    id: u32,
    query_seq: u64,
    target_ip: IpAddr,
    src: SocketAddr,
    now: u64,
    after: MeshState,
    r: Delivery,
)
    requires
        state.peers.contains_key(id),
        route_of(state.routes, target_ip) is None,
        !state.peers[id].rx_replay.refuses(query_seq),
        state.taken(ident, id, Body::LighthouseQuery { seq: query_seq, target_ip }, None, src, now, after, r),
    ensures
        ident.am_lighthouse ==> {
            &&& r is Send
            &&& r->Send_0@.len() == 1
            &&& r->Send_0@[0].wire is Some
            &&& is_next(state, id, after.peers[id].tx_seq)
            &&& says(
                state,
                ident,
                id,
                Body::LighthouseNotFound { seq: after.peers[id].tx_seq, target_ip },
                r->Send_0@[0],
            )
        },
        !ident.am_lighthouse ==> r is Ignored,
{
}

/// That nobody is behind an address is told on as it was said.
pub proof fn law_not_found_is_told(
    state: MeshState,
    ident: Identity,
    id: u32,
    seq: u64,
    target_ip: IpAddr,
    src: SocketAddr,
    now: u64,
    after: MeshState,
    r: Delivery,
)
    requires
        state.peers.contains_key(id),
        !state.peers[id].rx_replay.refuses(seq),
        state.taken(ident, id, Body::LighthouseNotFound { seq, target_ip }, None, src, now, after, r),
    ensures
        r == Delivery::NotFound(target_ip),
        after.routes == state.routes,
{
}

/// A keepalive for a connected lighthouse is sent to it and waits for its answer; the one
/// before it has timed out if it has waited, unanswered, for the timeout. Without a peer at
/// the endpoint nothing is sent.
pub proof fn law_keepalives_are_sent(
    state: MeshState,
    ident: Identity,
    addr: SocketAddr,
    token: u64,
    timeout: u64,
    now: u64,
    after: MeshState,
    r: Option<KeepaliveSent>,
)
    requires
        state.kept_alive(ident, addr, token, timeout, now, after, r),
    ensures
        r is Some <==> exists|id: u32| #[trigger] state.peers.contains_key(id) && state.peers[id].addr == addr,
        r matches Some(sent) ==> {
            let id = sent.peer_id;
            &&& sent.out.addr == addr
            &&& sent.out.wire is Some
            &&& is_next(state, id, after.peers[id].tx_seq)
            &&& says(state, ident, id, Body::Keepalive { seq: after.peers[id].tx_seq, token }, sent.out)
            &&& after.keepalives.contains_key(id)
            &&& after.keepalives[id].token == token
            &&& after.keepalives[id].sent_at == now
            &&& !state.keepalives.contains_key(id) ==> sent.timed_out is None
            &&& state.keepalives.contains_key(id) && now >= state.keepalives[id].sent_at ==> sent.timed_out == (if now
                - state.keepalives[id].sent_at >= timeout {
                Some(state.keepalives[id].token)
            } else {
                None
            })
            &&& forall|other: u32|
                other != id ==> #[trigger] after.keepalives.contains_key(other) == state.keepalives.contains_key(other)
        },
        r is None ==> after == state,
{
}

/// A keepalive is answered at once, with its token.
pub proof fn law_keepalives_are_answered(
    state: MeshState,
    ident: Identity,
    id: u32,
    seq: u64,
    token: u64,
    src: SocketAddr,
    now: u64,
    after: MeshState,
    r: Delivery,
)
    requires
        state.peers.contains_key(id),
        !state.peers[id].rx_replay.refuses(seq),
        state.taken(ident, id, Body::Keepalive { seq, token }, None, src, now, after, r),
    ensures
        r is Send,
        r->Send_0@.len() == 1,
        is_next(state, id, after.peers[id].tx_seq),
        says(state, ident, id, Body::KeepaliveAck { seq: after.peers[id].tx_seq, token }, r->Send_0@[0]),
        after.peers[id].last_seen == now,
        after.routes == state.routes,
{
}

/// The answer to a keepalive ends the wait for it, and one with another token does not.
pub proof fn law_answers_end_the_wait(
    state: MeshState,
    ident: Identity,
    id: u32,
    seq: u64,
    token: u64,
    src: SocketAddr,
    now: u64,
    after: MeshState,
    r: Delivery,
)
    requires
        state.peers.contains_key(id),
        !state.peers[id].rx_replay.refuses(seq),
        state.keepalives.contains_key(id),
        state.taken(ident, id, Body::KeepaliveAck { seq, token }, None, src, now, after, r),
    ensures
        r is Acknowledged <==> state.keepalives[id].token == token,
        after.keepalives.contains_key(id) <==> state.keepalives[id].token != token,
        forall|other: u32|
            other != id ==> #[trigger] after.keepalives.contains_key(other) == state.keepalives.contains_key(other),
        after.peers[id].last_seen == now,
        after.routes == state.routes,
{
}

/// A relay passes on what a peer asks it to, as it came, to the endpoint of the peer that it
/// is for; nobody else passes anything on, and nothing goes to a peer that is not connected.
pub proof fn law_relay_passes_on_what_it_is_given(
    state: MeshState,
    ident: Identity,
    id: u32,
    seq: u64,
    next_peer_id: u32,
    inner_packet: Seq<u8>,
    src: SocketAddr,
    now: u64,
    after: MeshState,
    r: Delivery,
)
    requires
        state.peers.contains_key(id),
        !state.peers[id].rx_replay.refuses(seq),
        state.taken(ident, id, Body::RelayForward { seq, next_peer_id, inner_packet }, None, src, now, after, r),
    ensures
        r is Forward <==> ident.am_relay && state.peers.contains_key(next_peer_id),
        r is Forward || r is Ignored,
        r is Forward ==> r->Forward_0 == state.peers[next_peer_id].addr && r->Forward_1@ == inner_packet,
        after.routes == state.routes,
{
}

/// A packet of a session goes where it is addressed: to this node if it is for it or for
/// nobody by name; through this node, if it relays, to the endpoint of a connected peer; and
/// otherwise nowhere. It does not matter who opened the session.
pub proof fn law_packets_go_where_they_are_addressed(
    state: MeshState,
    ident: Identity,
    wire: Seq<u8>,
    message: Message,
)
    requires
        is_packet(wire, message, ident.network_key@),
    ensures
        state.step(ident, wire) == (if message.dst_peer_id == 0 || message.dst_peer_id == ident.our_id {
            Step::Session
        } else if ident.am_relay && state.peers.contains_key(message.dst_peer_id) {
            Step::Relay(state.peers[message.dst_peer_id].addr)
        } else {
            Step::Nothing
        }),
{
    let pkt = choose|pkt: DataPacket|
        {
            &&& wire == #[trigger] pkt.wire()
            &&& pkt.carries(message.body, message.dst_peer_id, message.session_id, ident.network_key@, message.key)
        };
    lemma_header_of_packet(
        pkt,
        message.body,
        message.dst_peer_id,
        message.session_id,
        ident.network_key@,
        message.key,
    );
}

/// A node that leaves tells every peer, each once and at its endpoint.
pub proof fn law_every_peer_is_told(state: MeshState, ident: Identity, r: Seq<(u32, Outgoing)>, id: u32)
    requires
        state.says_goodbye(ident, r),
    ensures
        state.peers.contains_key(id) <==> exists|i: int| 0 <= i < r.len() && (#[trigger] r[i]).0 == id,
        forall|i: int|
            0 <= i < r.len() ==> (#[trigger] r[i]).1.wire is Some && exists|seq: u64|
                is_next(state, r[i].0, seq) && says(state, ident, r[i].0, #[trigger] farewell(seq), r[i].1),
        forall|i: int, j: int| #![trigger r[i], r[j]] 0 <= i < j < r.len() ==> r[i].0 != r[j].0,
{
    assert forall|i: int| 0 <= i < r.len() implies (#[trigger] r[i]).1.wire is Some && exists|seq: u64|
        is_next(state, r[i].0, seq) && says(state, ident, r[i].0, #[trigger] farewell(seq), r[i].1) by {
        let seq = next_seq(state.peers[r[i].0].tx_seq);
        assert(says(state, ident, r[i].0, farewell(seq), r[i].1));
    }
}

/// The last packet of a session.
pub open spec fn farewell(seq: u64) -> Body {
    Body::Disconnect { seq }
}

/// A peer that says farewell is gone, with its session, its routes and its endpoint, and what
/// lies behind the other peers stays there.
pub proof fn law_leaving_peer_is_gone(
    state: MeshState,
    ident: Identity,
    id: u32,
    seq: u64,
    src: SocketAddr,
    now: u64,
    after: MeshState,
    r: Delivery,
    ip: IpAddr,
    other: u32,
)
    requires
        state.consistent(),
        state.peers.contains_key(id),
        !state.peers[id].rx_replay.refuses(seq),
        state.taken(ident, id, Body::Disconnect { seq }, None, src, now, after, r),
        other != id,
    ensures
        r is Disconnected,
        r->Disconnected_0@ == state.peers[id].routes@,
        !after.peers.contains_key(id),
        !after.rx_sessions.contains_key(state.peers[id].rx_session_id),
        !after.established.contains(src),
        route_of(after.routes, ip) != Some(id),
        route_of(state.routes, ip) == Some(other) ==> route_of(after.routes, ip) == Some(other),
        after.peers.contains_key(other) <==> state.peers.contains_key(other),
        state.peers.contains_key(other) ==> after.peers[other] == state.peers[other],
        forall|a: SocketAddr| a != src ==> #[trigger] after.established.contains(a) == state.established.contains(a),
        after.pending == state.pending,
{
    crate::route::law_removed_peer_is_behind_nothing(state.routes, id, ip);
    if route_of(state.routes, ip) == Some(other) {
        law_removal_leaves_the_rest(state.routes, id, ip, other);
    }
}

/// Nothing that a connected peer says moves an address to another node: but for a farewell,
/// the routes, the peers and their certificates stay what they were.
pub proof fn law_words_move_no_routes(
    state: MeshState,
    ident: Identity,
    id: u32,
    body: Body,
    peer_cert: Option<Cert>,
    src: SocketAddr,
    now: u64,
    after: MeshState,
    r: Delivery,
    other: u32,
)
    requires
        state.consistent(),
        state.taken(ident, id, body, peer_cert, src, now, after, r),
        !(body is Disconnect),
    ensures
        after.routes == state.routes,
        after.rx_sessions == state.rx_sessions,
        after.pending == state.pending,
        after.established == state.established,
        after.peers.contains_key(other) <==> state.peers.contains_key(other),
        state.peers.contains_key(other) ==> {
            &&& after.peers[other].cert == state.peers[other].cert
            &&& after.peers[other].addr == state.peers[other].addr
            &&& after.peers[other].routes == state.peers[other].routes
            &&& after.peers[other].tx_key == state.peers[other].tx_key
            &&& after.peers[other].rx_key == state.peers[other].rx_key
            &&& other != id ==> after.peers[other].last_seen == state.peers[other].last_seen
            &&& other != id ==> after.peers[other].rx_replay == state.peers[other].rx_replay
        },
{
    if body is LighthouseQuery {
        let target_ip = body->LighthouseQuery_target_ip;
        if route_of(state.routes, target_ip) is Some {
            let found = route_of(state.routes, target_ip)->0;
            let i = choose|i: int| crate::route::is_best(state.routes, target_ip, i);
            crate::route::lemma_route_of(state.routes, target_ip, i);
            assert(state.peers.contains_key(found));
        }
    }
}

/// A packet is opened with the keys of the peer whose session it names, and of no other.
pub proof fn law_packets_are_opened_in_their_session(
    state: MeshState,
    ident: Identity,
    packet: Seq<u8>,
    id: u32,
    body: Body,
)
    requires
        state.opened(ident, packet) == Some((id, body)),
    ensures
        wire_header(packet, ident.network_key@) is Some,
        ({
            let header = wire_header(packet, ident.network_key@)->0;
            &&& state.rx_sessions.contains_key(header.session_id)
            &&& state.rx_sessions[header.session_id] == id
            &&& state.peers.contains_key(id)
            &&& header.kind == body.kind()
            &&& wire_opened(packet, packet_key_of(state.peers[id].rx_key@)) is Some
            &&& read_body(wire_opened(packet, packet_key_of(state.peers[id].rx_key@))->0) == Some(body)
        }),
{
}

/// A datagram for another node goes on as it is, if this node relays and the other is
/// connected, and otherwise nowhere. It is not opened here, and no fragment is kept.
pub proof fn law_datagrams_for_others_are_not_kept(
    state: MeshState,
    ident: Identity,
    waiting: Seq<Pending>,
    src: SocketAddr,
    data: Seq<u8>,
    now: u64,
    header: NetworkHeader,
)
    requires
        wire_header(data, ident.network_key@) == Some(header),
        header.dst_peer_id != 0,
        header.dst_peer_id != ident.our_id,
    ensures
        state.reception(ident, waiting, src, data, now) == (
            waiting,
            if ident.am_relay && state.peers.contains_key(header.dst_peer_id) {
                Reception::Relay(state.peers[header.dst_peer_id].addr)
            } else {
                Reception::Nothing
            },
        ),
{
}

/// A packet of a session with this node is taken as it came.
pub proof fn law_session_packet_is_received(
    state: MeshState,
    ident: Identity,
    waiting: Seq<Pending>,
    src: SocketAddr,
    wire: Seq<u8>,
    now: u64,
    message: Message,
)
    requires
        is_packet(wire, message, ident.network_key@),
        message.dst_peer_id == 0 || message.dst_peer_id == ident.our_id,
    ensures
        state.reception(ident, waiting, src, wire, now) == (waiting, Reception::Packet(wire)),
{
    let pkt = choose|pkt: DataPacket|
        {
            &&& wire == #[trigger] pkt.wire()
            &&& pkt.carries(message.body, message.dst_peer_id, message.session_id, ident.network_key@, message.key)
        };
    lemma_header_of_packet(
        pkt,
        message.body,
        message.dst_peer_id,
        message.session_id,
        ident.network_key@,
        message.key,
    );
    assert(message.body.kind() != 0x13);
}

/// The fragments of a message for a peer pass through a connected relay, each on its own.
pub proof fn law_fragments_pass_through_a_relay(
    relay: MeshState,
    ident: Identity,
    waiting: Seq<Pending>,
    src: SocketAddr,
    now: u64,
    packets: Seq<Seq<u8>>,
    data: Seq<u8>,
    msg_id: u32,
    size: nat,
    dst_peer_id: u32,
    i: int,
)
    requires
        is_fragmentation(packets, data, msg_id, size, dst_peer_id, ident.network_key@),
        0 <= i < packets.len(),
        ident.am_relay,
        relay.peers.contains_key(dst_peer_id),
        dst_peer_id != 0,
        dst_peer_id != ident.our_id,
    ensures
        relay.reception(ident, waiting, src, packets[i], now) == (
            waiting,
            Reception::Relay(relay.peers[dst_peer_id].addr),
        ),
{
    let total = pieces(data, size).len();
    let plain = fragment_plain(msg_id, i, total, pieces(data, size)[i]);
    law_fragment_layout(msg_id, i, total, pieces(data, size)[i]);
    assert(well_framed(plain));
    law_sealed_handshake_opens(packets[i], plain, dst_peer_id, 0, ident.network_key@);
    law_datagrams_for_others_are_not_kept(
        relay,
        ident,
        waiting,
        src,
        packets[i],
        now,
        wire_header(packets[i], ident.network_key@)->0,
    );
}

/// An answer ends the handshake that waits for it, whatever it says, and no other; without
/// such a handshake nothing changes. Only an accepted answer makes a peer known.
pub proof fn law_answer_ends_its_handshake(
    state: MeshState,
    ident: Identity,
    src: SocketAddr,
    packet: Seq<u8>,
    session_id: u32,
    peer_cert: Option<Cert>,
    now: u64,
    after: MeshState,
    r: Result<Joined, JoinError>,
    other: u32,
)
    requires
        state.answer_taken(ident, src, packet, session_id, peer_cert, now, after, r),
    ensures
        !after.pending.contains_key(session_id),
        other != session_id ==> (after.pending.contains_key(other) <==> state.pending.contains_key(other)),
        other != session_id && state.pending.contains_key(other) ==> after.pending[other] == state.pending[other],
        !state.pending.contains_key(session_id) ==> r is Err && after == state,
        r is Err ==> after.peers == state.peers && after.routes == state.routes && after.established
            == state.established && after.rx_sessions == state.rx_sessions,
        r matches Ok(joined) ==> {
            &&& after.peers.contains_key(joined.peer_id)
            &&& after.peers[joined.peer_id].addr == src
            &&& after.established.contains(src)
            &&& after.rx_sessions.contains_key(after.peers[joined.peer_id].rx_session_id)
            &&& peer_cert == Some(after.peers[joined.peer_id].cert)
            &&& joined.peer_id == node_id(after.peers[joined.peer_id].cert.body.keys)
        },
{
}

/// A first message makes its sender known under the number of its keys, at the endpoint that
/// it came from, if it is accepted, and changes nothing otherwise.
pub proof fn law_first_message_makes_a_peer(
    state: MeshState,
    ident: Identity,
    src: SocketAddr,
    now: u64,
    outcome: Result<HandshakeResponse, HandshakeError>,
    after: MeshState,
    r: Result<Answer, HandshakeError>,
)
    requires
        state.answered(ident, src, now, outcome, after, r),
    ensures
        r is Ok <==> outcome is Ok,
        outcome is Err ==> after == state,
        outcome matches Ok(resp) ==> {
            let id = node_id(resp.peer_cert.body.keys);
            &&& r->Ok_0.peer_id == id
            &&& r->Ok_0.msg@ == resp.msg@
            &&& after.peers.contains_key(id)
            &&& after.peers[id].cert == resp.peer_cert
            &&& after.peers[id].addr == src
            &&& after.peers[id].is_relay == resp.peer_is_relay
            &&& after.peers[id].tx_session_id == resp.peer_rx_session_id
            &&& after.rx_sessions.contains_key(resp.my_rx_session_id)
            &&& after.rx_sessions[resp.my_rx_session_id] == id
            &&& after.established.contains(src)
            &&& after.pending == state.pending
        },
{
}

} // verus!
