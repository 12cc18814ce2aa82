//! What a node does for those behind it and for its peers: which packets reach the interface,
//! whom it introduces, when it falls back to a relay, and when it forgets.
use crate::addr::{law_network_is_a_range, parsed_network, IpAddr, IpNetwork, SocketAddr};
use crate::cert::{node_id, Cert};
use crate::crypto::hybrid_sig::accepts;
use crate::mesh::connect::{Punch, RelayCandidate};
use crate::mesh::deliver::{Delivery, IntroductionError};
use crate::mesh::outbound::{overlay_of, Lookups, OverlayPlan};
use crate::mesh::{is_authorized_list, is_packet, next_seq, of_unexpired, Identity, MeshState, Message, Outgoing};
use crate::packet::Body;
use crate::replay::{law_only_seen_and_old_numbers_are_refused, law_seen_is_refused};
use crate::route::grants::{
    law_authorized_addresses_are_those_of_the_owner, law_routes_hold_the_addresses_of_the_owner, may_use, prefixes_fit,
};
use crate::route::lookup::lemma_best_passes;
use crate::route::{dest_ip, is_best, lemma_filter_passes, lemma_route_of, route_of, source_ip};
use vstd::prelude::*;

verus! {

/// The number that four bytes of a packet form, most significant first.
pub open spec fn word(packet: Seq<u8>, at: int) -> int {
    packet[at] * 0x100_0000 + packet[at + 1] * 0x1_0000 + packet[at + 2] * 0x100 + packet[at + 3]
}

/// Whether an IP packet holds an address at one of two places: the first for IPv4, the second
/// for IPv6.
pub open spec fn has_address(packet: Seq<u8>, v4_at: int, v6_at: int, ip: IpAddr) -> bool {
    match ip {
        IpAddr::V4(b) => packet.len() >= 20 && packet[0] / 16 == 4 && b == word(packet, v4_at),
        IpAddr::V6(b) => packet.len() >= 40 && packet[0] / 16 == 6 && b == word(packet, v6_at)
            * 0x1_0000_0000_0000_0000_0000_0000 + word(packet, v6_at + 4) * 0x1_0000_0000_0000_0000 + word(
            packet,
            v6_at + 8,
        ) * 0x1_0000_0000 + word(packet, v6_at + 12),
    }
}

/// Whether an IP packet comes from an address.
pub open spec fn is_from(packet: Seq<u8>, ip: IpAddr) -> bool {
    has_address(packet, 12, 8, ip)
}

/// Whether an IP packet goes to an address.
pub open spec fn is_to(packet: Seq<u8>, ip: IpAddr) -> bool {
    has_address(packet, 16, 24, ip)
}

/// The addresses of an IP packet are those in its header.
pub proof fn law_addresses_stand_in_the_header(packet: Seq<u8>, ip: IpAddr)
    ensures
        source_ip(packet) == Some(ip) <==> is_from(packet, ip),
        dest_ip(packet) == Some(ip) <==> is_to(packet, ip),
{
    if packet.len() >= 40 && packet[0] / 16 == 6 {
        lemma_words(packet, 8);
        lemma_words(packet, 24);
    } else if packet.len() >= 20 && packet[0] / 16 == 4 {
        let s = packet.skip(12);
        let d = packet.skip(16);
        assert(s[0] == packet[12] && s[1] == packet[13] && s[2] == packet[14] && s[3] == packet[15]);
        assert(d[0] == packet[16] && d[1] == packet[17] && d[2] == packet[18] && d[3] == packet[19]);
    }
}

/// Sixteen bytes of a packet as four numbers.
proof fn lemma_words(packet: Seq<u8>, at: int)
    requires
        0 <= at,
        at + 16 <= packet.len(),
    ensures
        crate::bytes::from_be128(packet.skip(at)) == word(packet, at) * 0x1_0000_0000_0000_0000_0000_0000 + word(
            packet,
            at + 4,
        ) * 0x1_0000_0000_0000_0000 + word(packet, at + 8) * 0x1_0000_0000 + word(packet, at + 12),
{
    let s = packet.skip(at);
    let s4 = s.skip(4);
    let s8 = s.skip(8);
    let s12 = s8.skip(4);
    assert(forall|i: int| 0 <= i < 4 ==> s[i] == packet[at + i]);
    assert(forall|i: int| 0 <= i < 4 ==> s4[i] == packet[at + 4 + i]);
    assert(forall|i: int| 0 <= i < 4 ==> s8[i] == packet[at + 8 + i]);
    assert(forall|i: int| 0 <= i < 4 ==> s12[i] == packet[at + 12 + i]);
    assert(crate::bytes::from_be32(s) == word(packet, at));
    assert(crate::bytes::from_be32(s4) == word(packet, at + 4));
    assert(crate::bytes::from_be32(s8) == word(packet, at + 8));
    assert(crate::bytes::from_be32(s12) == word(packet, at + 12));
}

/// An IP packet from a peer reaches the interface, as it was sent, if and only if the peer may
/// be at the address that the packet comes from: its own, or one in a subnet that its
/// certificate announces by a grant. Any other packet is turned away.
#[verifier::rlimit(50)]
#[verifier::spinoff_prover]
pub proof fn law_packets_from_granted_addresses_are_handed_on(
    state: MeshState,
    ident: Identity,
    id: u32,
    seq: u64,
    ip_packet: Seq<u8>,
    peer_cert: Option<Cert>,
    src: SocketAddr,
    now: u64,
    after: MeshState,
    r: Delivery,
    ip: IpAddr,
)
    requires
        prefixes_fit(),
        state.peers.contains_key(id),
        is_authorized_list(state.peers[id].routes@, state.peers[id].cert),
        !state.peers[id].rx_replay.refuses(seq),
        state.taken(ident, id, Body::Data { seq, ip_packet }, peer_cert, src, now, after, r),
        is_from(ip_packet, ip),
    ensures
        may_use(state.peers[id].cert, ip) ==> r is ToInterface && r->ToInterface_0@ == ip_packet,
        !may_use(state.peers[id].cert, ip) ==> r is Unauthorized,
{
    law_addresses_stand_in_the_header(ip_packet, ip);
    law_routes_hold_the_addresses_of_the_owner(state.peers[id].cert, state.peers[id].routes@, ip);
}

/// What is no IP packet with a source address never reaches the interface.
pub proof fn law_packets_without_a_source_are_turned_away(
    state: MeshState,
    ident: Identity,
    id: u32,
    seq: u64,
    ip_packet: Seq<u8>,
    peer_cert: Option<Cert>,
    src: SocketAddr,
    now: u64,
    after: MeshState,
    r: Delivery,
)
    requires
        state.peers.contains_key(id),
        !state.peers[id].rx_replay.refuses(seq),
        state.taken(ident, id, Body::Data { seq, ip_packet }, peer_cert, src, now, after, r),
        forall|ip: IpAddr| !is_from(ip_packet, ip),
    ensures
        r is Unauthorized,
{
    if source_ip(ip_packet) is Some {
        law_addresses_stand_in_the_header(ip_packet, source_ip(ip_packet)->0);
    }
}

/// What comes from nobody that is connected, and a response whose certificate cannot be read,
/// is dropped without a trace.
pub proof fn law_strangers_are_not_heard(
    state: MeshState,
    ident: Identity,
    id: u32,
    body: Body,
    peer_cert: Option<Cert>,
    src: SocketAddr,
    now: u64,
    after: MeshState,
    r: Delivery,
)
    requires
        state.taken(ident, id, body, peer_cert, src, now, after, r),
        !state.peers.contains_key(id) || body is LighthouseResponse && peer_cert is None,
    ensures
        r is Dropped,
        after == state,
{
}

/// What a connected peer says for the first time is never dropped: it is noted that the peer
/// was heard of.
pub proof fn law_peers_are_heard(
    state: MeshState,
    ident: Identity,
    id: u32,
    body: Body,
    peer_cert: Option<Cert>,
    src: SocketAddr,
    now: u64,
    after: MeshState,
    r: Delivery,
)
    requires
        state.consistent(),
        state.taken(ident, id, body, peer_cert, src, now, after, r),
        state.peers.contains_key(id),
        body is LighthouseResponse ==> peer_cert is Some,
        !state.peers[id].rx_replay.refuses(body.seq()),
        !(body is Disconnect),
    ensures
        !(r is Dropped),
        !(r is Replayed),
        after.peers.contains_key(id),
        after.peers[id].last_seen == now,
        after.peers[id].rx_replay.refuses(body.seq()),
{
    law_seen_is_refused(state.peers[id].rx_replay, body.seq());
    if body is LighthouseQuery {
        let target_ip = body->LighthouseQuery_target_ip;
        if route_of(state.routes, target_ip) is Some {
            let i = choose|i: int| is_best(state.routes, target_ip, i);
            lemma_route_of(state.routes, target_ip, i);
            assert(state.peers.contains_key(state.routes[i].1));
        }
    }
}

/// A lighthouse's response is followed, with a handshake to the peer and the endpoint that it
/// names, if and only if the certificate in it is a node's, holds at the time, is signed by
/// the authority, belongs to the peer, and lets the peer be at the address that was asked for.
#[verifier::rlimit(50)]
#[verifier::spinoff_prover]
pub proof fn law_introductions_are_followed(
    state: MeshState,
    ident: Identity,
    id: u32,
    seq: u64,
    target_ip: IpAddr,
    peer_id: u32,
    peer_addr: SocketAddr,
    json: Seq<u8>,
    peer_is_relay: bool,
    cert: Cert,
    src: SocketAddr,
    now: u64,
    after: MeshState,
    r: Delivery,
)
    requires
        prefixes_fit(),
        state.peers.contains_key(id),
        !state.peers[id].rx_replay.refuses(seq),
        state.taken(
            ident,
            id,
            Body::LighthouseResponse { seq, target_ip, peer_id, peer_addr, peer_cert: json, peer_is_relay },
            Some(cert),
            src,
            now,
            after,
            r,
        ),
    ensures
        r is Connect <==> {
            &&& !cert.body.meta.is_ca
            &&& cert.body.meta.not_before.spec_secs() <= now <= cert.body.meta.not_after.spec_secs()
            &&& accepts(ident.ca_vk.hybrid(), cert.body.json(), cert.signature.hybrid())
            &&& node_id(cert.body.keys) == peer_id
            &&& may_use(cert, target_ip)
        },
        r is Connect ==> r->Connect_0 == peer_id && r->Connect_1 == peer_addr && r->Connect_2@
            == cert.body.meta.name@,
        r is Connect || r is RefusedIntroduction,
        r == Delivery::RefusedIntroduction(IntroductionError::IpNotAuthorized) ==> !may_use(cert, target_ip),
{
    law_authorized_addresses_are_those_of_the_owner(cert, target_ip);
}

/// The state after the packets with the first `n` of some numbers were accepted from a peer.
pub open spec fn touched_by(state: MeshState, id: u32, seqs: Seq<u64>, n: nat, now: u64) -> MeshState
    decreases n,
{
    if n == 0 {
        state
    } else {
        touched_by(state, id, seqs, (n - 1) as nat, now).touched(id, seqs[n - 1], now)
    }
}

proof fn lemma_window_of_peer(state: MeshState, id: u32, seqs: Seq<u64>, n: nat, now: u64)
    requires
        state.peers.contains_key(id),
        n <= seqs.len(),
    ensures
        touched_by(state, id, seqs, n, now).peers.contains_key(id),
        touched_by(state, id, seqs, n, now).peers[id].rx_replay == state.peers[id].rx_replay.after_all(seqs, n),
        touched_by(state, id, seqs, n, now).peers[id].routes == state.peers[id].routes,
        touched_by(state, id, seqs, n, now).peers[id].cert == state.peers[id].cert,
        n > 0 ==> touched_by(state, id, seqs, n, now).peers[id].last_seen == now,
    decreases n,
{
    if n > 0 {
        lemma_window_of_peer(state, id, seqs, (n - 1) as nat, now);
    }
}

/// From the start of a session on, a packet is refused as a replay if and only if one with its
/// number came before, or one with a number higher by 64 or more. So packets that overtake
/// one another on the way are all taken.
pub proof fn law_packets_may_overtake_one_another(
    state: MeshState,
    ident: Identity,
    id: u32,
    seqs: Seq<u64>,
    body: Body,
    peer_cert: Option<Cert>,
    src: SocketAddr,
    now: u64,
    after: MeshState,
    r: Delivery,
)
    requires
        state.peers.contains_key(id),
        !state.peers[id].rx_replay.initialized,
        body is LighthouseResponse ==> peer_cert is Some,
        touched_by(state, id, seqs, seqs.len(), now).taken(ident, id, body, peer_cert, src, now, after, r),
    ensures
        r is Replayed <==> exists|i: int|
            0 <= i < seqs.len() && (#[trigger] seqs[i] == body.seq() || seqs[i] - body.seq() >= 64),
{
    let n = seqs.len();
    lemma_window_of_peer(state, id, seqs, n, now);
    law_only_seen_and_old_numbers_are_refused(state.peers[id].rx_replay, seqs, n, body.seq());
}

/// A handshake is offered for a relay, once and with its message, if and only if its peer is
/// known by number, no relay was tried, it has waited for the timeout, and it is not given up:
/// that is when it has waited for more than a minute and for more than six times the timeout.
#[verifier::rlimit(50)]
#[verifier::spinoff_prover]
pub proof fn law_unanswered_handshakes_are_offered(
    state: MeshState,
    timeout: u64,
    now: u64,
    r: Seq<RelayCandidate>,
    after: MeshState,
    session_id: u32,
)
    requires
        state.offers(timeout, now, r),
        state.given_up(timeout, now, after),
        state.pending.contains_key(session_id),
        state.pending[session_id].sent_at <= now,
    ensures
        ({
            let waiting = state.pending[session_id];
            let age = now - waiting.sent_at;
            let kept = age <= 60 || age <= 6 * timeout;
            let offered = exists|i: int| 0 <= i < r.len() && (#[trigger] r[i]).session_id == session_id;
            &&& offered <==> kept && waiting.peer_id is Some && !waiting.relay_attempted && age >= timeout
            &&& after.pending.contains_key(session_id) <==> kept
            &&& kept ==> after.pending[session_id] == waiting
            &&& forall|i: int|
                0 <= i < r.len() && (#[trigger] r[i]).session_id == session_id ==> waiting.peer_id == Some(r[i].peer_id)
                    && r[i].msg@ == waiting.initiate.msg@ && r[i].peer_name@ == waiting.peer_name@
            &&& forall|i: int, j: int|
                #![trigger r[i], r[j]]
                0 <= i < r.len() && 0 <= j < r.len() && r[i].session_id == session_id && r[j].session_id == session_id
                    ==> i == j
        }),
{
    let waiting = state.pending[session_id];
    let age = now - waiting.sent_at;
    if waiting.peer_id is Some && !waiting.relay_attempted && age >= timeout && (age <= 60 || age <= 6 * timeout) {
        assert(state.wants_relay(session_id, timeout, now));
    }
    assert(after.pending.contains_key(session_id) == state.still_pending(session_id, timeout, now));
}

/// A handshake that is to be tried through a relay stays so as time passes, until it is tried
/// or given up.
pub proof fn law_wish_for_a_relay_lasts(state: MeshState, session_id: u32, timeout: u64, now: u64, later: u64)
    requires
        state.wants_relay(session_id, timeout, now),
        now <= later,
        state.still_pending(session_id, timeout, later),
    ensures
        state.wants_relay(session_id, timeout, later),
{
}

/// A handshake that was tried through a relay waits on under the same session with the same
/// secrets, for another minute at least, and is not offered again.
pub proof fn law_relayed_handshake_waits_on(
    state: MeshState,
    session_id: u32,
    relay_addr: SocketAddr,
    now: u64,
    timeout: u64,
    later: u64,
)
    requires
        state.pending.contains_key(session_id),
        !state.pending[session_id].relay_attempted,
        now <= later <= now + 60,
    ensures
        ({
            let after = state.relayed(session_id, relay_addr, now);
            &&& after.still_pending(session_id, timeout, later)
            &&& !after.wants_relay(session_id, timeout, later)
            &&& after.pending[session_id].initiate == state.pending[session_id].initiate
            &&& after.pending[session_id].addr == relay_addr
            &&& forall|s: u32|
                s != session_id && state.pending.contains_key(s) ==> #[trigger] after.pending.contains_key(s)
                    && after.pending[s] == state.pending[s]
        }),
{
}

/// A first message that was sent waits for its answer under its session, for a minute at
/// least, and the handshakes under other sessions wait on.
pub proof fn law_sent_handshake_waits(
    state: MeshState,
    initiate: crate::handshake::HandshakeInitiate,
    addr: SocketAddr,
    peer_id: Option<u32>,
    peer_name: String,
    now: u64,
    timeout: u64,
    later: u64,
)
    requires
        now <= later <= now + 60,
    ensures
        ({
            let after = state.awaiting(initiate, addr, peer_id, peer_name, now);
            let session_id = initiate.my_rx_session_id;
            &&& after.still_pending(session_id, timeout, later)
            &&& after.pending[session_id].initiate == initiate
            &&& after.pending[session_id].addr == addr
            &&& after.wants_relay(session_id, timeout, later) <==> peer_id is Some && later - now >= timeout
            &&& forall|s: u32|
                s != session_id && state.pending.contains_key(s) ==> #[trigger] after.pending.contains_key(s)
                    && after.pending[s] == state.pending[s]
        }),
{
}

/// Whoever is not connected is reached through a connected relay as long as there is one, and
/// whoever is connected is not reached through a relay.
pub proof fn law_relay_is_found(state: MeshState, target: u32, r: Option<(u32, SocketAddr)>, relay: u32)
    requires
        state.is_relay_for(target, r),
        state.peers.contains_key(relay),
        state.peers[relay].is_relay,
    ensures
        r is Some <==> !state.peers.contains_key(target),
        r matches Some((id, addr)) ==> id != target && state.peers.contains_key(id) && state.peers[id].is_relay
            && state.peers[id].addr == addr,
{
}

/// A lighthouse without a handshake gets one; with one, it gets a keepalive where that is
/// wanted and nothing else.
pub proof fn law_lighthouses_are_kept_up(state: MeshState, addr: SocketAddr, keepalive_punch: bool)
    ensures
        state.punch_at(addr, keepalive_punch) == Punch::Handshake <==> !state.established.contains(addr),
        state.punch_at(addr, keepalive_punch) == Punch::Keepalive <==> state.established.contains(addr)
            && keepalive_punch,
{
}

/// A peer is forgotten if and only if more than 300 seconds have passed since it was last heard
/// of; its routes go with it, and those of the others stay.
#[verifier::rlimit(50)]
#[verifier::spinoff_prover]
pub proof fn law_silent_peers_are_forgotten(state: MeshState, now: u64, after: MeshState, gone: Seq<u32>, id: u32)
    requires
        state.forgotten(now, after, gone),
        state.peers.contains_key(id),
    ensures
        after.established == state.established,
        after.pending == state.pending,
        after.keepalives == state.keepalives,
        gone.contains(id) <==> state.peers[id].last_seen + 300 < now,
        after.peers.contains_key(id) <==> !(state.peers[id].last_seen + 300 < now),
        after.peers.contains_key(id) ==> after.peers[id] == state.peers[id],
        forall|ip: IpAddr|
            route_of(state.routes, ip) == Some(id) && after.peers.contains_key(id) ==> #[trigger] route_of(
                after.routes,
                ip,
            ) == Some(id),
        forall|ip: IpAddr| !after.peers.contains_key(id) ==> #[trigger] route_of(after.routes, ip) != Some(id),
        forall|s: u32|
            state.rx_sessions.contains_key(s) && state.rx_sessions[s] == id && state.peers[id].rx_session_id == s
                && !after.peers.contains_key(id) ==> !#[trigger] after.rx_sessions.contains_key(s),
{
    let keep = of_unexpired(state, now);
    assert forall|ip: IpAddr|
        route_of(state.routes, ip) == Some(id) && after.peers.contains_key(id) implies #[trigger] route_of(
        after.routes,
        ip,
    ) == Some(id) by {
        let i = choose|i: int| is_best(state.routes, ip, i);
        lemma_route_of(state.routes, ip, i);
        let k = lemma_best_passes(state.routes, keep, ip, i);
        lemma_route_of(after.routes, ip, k);
    }
    assert forall|ip: IpAddr| !after.peers.contains_key(id) implies #[trigger] route_of(after.routes, ip) != Some(
        id,
    ) by {
        if route_of(after.routes, ip) == Some(id) {
            let i = choose|i: int| is_best(after.routes, ip, i);
            lemma_filter_passes(state.routes, keep, i);
        }
    }
    assert forall|s: u32|
        state.rx_sessions.contains_key(s) && state.rx_sessions[s] == id && state.peers[id].rx_session_id == s
            && !after.peers.contains_key(id) implies !#[trigger] after.rx_sessions.contains_key(s) by {
        assert(state.expired(id, now));
    }
}

/// The session of a peer that is not forgotten stays open.
pub proof fn law_sessions_of_heard_peers_stay(
    state: MeshState,
    now: u64,
    after: MeshState,
    gone: Seq<u32>,
    session_id: u32,
)
    requires
        state.consistent(),
        state.forgotten(now, after, gone),
        state.rx_sessions.contains_key(session_id),
        state.peers[state.rx_sessions[session_id]].last_seen + 300 >= now,
    ensures
        after.rx_sessions.contains_key(session_id) || exists|other: u32|
            #[trigger] state.peers.contains_key(other) && other != state.rx_sessions[session_id]
                && state.peers[other].rx_session_id == session_id,
{
    let id = state.rx_sessions[session_id];
    if exists|k: u32| #[trigger] state.expired(k, now) && state.peers[k].rx_session_id == session_id {
        let k = choose|k: u32| #[trigger] state.expired(k, now) && state.peers[k].rx_session_id == session_id;
        assert(state.peers.contains_key(k));
    }
}

/// A peer that has sent something is remembered for 300 seconds from then on.
pub proof fn law_heard_peer_is_remembered(state: MeshState, id: u32, seq: u64, heard: u64, now: u64)
    requires
        state.peers.contains_key(id),
        now <= heard + 300,
    ensures
        !state.touched(id, seq, heard).expired(id, now),
{
}

/// While the clock is behind a time that was noted, no time counts as passed since: no peer is
/// forgotten, no handshake is given up, and none is tried through a relay before its time.
pub proof fn law_no_time_passes_backwards(state: MeshState, id: u32, session_id: u32, timeout: u64, now: u64)
    ensures
        state.peers.contains_key(id) && now <= state.peers[id].last_seen ==> !state.expired(id, now),
        state.pending.contains_key(session_id) && now <= state.pending[session_id].sent_at ==> {
            &&& state.still_pending(session_id, timeout, now)
            &&& state.wants_relay(session_id, timeout, now) ==> timeout == 0
        },
{
}

/// An address that was asked for is not asked for again before ten seconds have passed, and is
/// asked for again after them; one that was never asked for is asked for at once.
pub proof fn law_questions_are_spaced(lookups: Lookups, ip: IpAddr, now: u64)
    ensures
        lookups.last(ip) matches Some(then) ==> (lookups.asked_recently(ip, now) <==> now < then + 10),
        lookups.last(ip) is None ==> !lookups.asked_recently(ip, now),
{
}

/// While an address was asked for a moment ago, nobody is asked and nothing changes.
pub proof fn law_question_is_not_repeated(
    state: MeshState,
    ident: Identity,
    target_ip: IpAddr,
    addrs: Seq<SocketAddr>,
    after: MeshState,
    r: Seq<Option<Outgoing>>,
)
    requires
        state.discovery_asked(ident, target_ip, addrs, true, after, r),
    ensures
        r.len() == 0,
        after == state,
{
}

/// The address of the interface names the network of the other nodes if its prefix has 1 to
/// 31 bits for IPv4 or 1 to 127 for IPv6. Without such a network a node with lighthouses
/// cannot look for others.
pub proof fn law_interface_names_the_overlay(ip: Seq<char>, has_lighthouses: bool, net: IpNetwork)
    requires
        parsed_network(ip) == Some(net),
    ensures
        ({
            let names_one = match net.ip {
                IpAddr::V4(_) => 1 <= net.prefix <= 31,
                IpAddr::V6(_) => 1 <= net.prefix <= 127,
            };
            &&& names_one ==> overlay_of(ip, has_lighthouses) is Network
            &&& !names_one && has_lighthouses ==> overlay_of(ip, has_lighthouses) == OverlayPlan::BreaksDiscovery
            &&& !names_one && !has_lighthouses ==> overlay_of(ip, has_lighthouses) == OverlayPlan::Alone
        }),
        overlay_of(ip, has_lighthouses) matches OverlayPlan::Network(overlay) ==> forall|other: IpAddr| #[trigger]
            overlay.holds(other) == net.holds(other),
{
    if let OverlayPlan::Network(overlay) = overlay_of(ip, has_lighthouses) {
        law_network_is_a_range(net, net.ip);
        assert(overlay.size() == net.size());
        assert(overlay.index() == net.index());
    }
}

/// Whether `out` is a packet to the peer `to` that asks for the peer behind an address.
pub open spec fn is_question(state: MeshState, ident: Identity, to: u32, target_ip: IpAddr, out: Outgoing) -> bool {
    let peer = state.peers[to];
    &&& state.peers.contains_key(to)
    &&& out.addr == peer.addr
    &&& out.wire is Some
    &&& exists|seq: u64|
        is_packet(
            out.wire->0@,
            Message {
                addr: peer.addr,
                dst_peer_id: to,
                session_id: peer.tx_session_id,
                key: peer.tx_key@,
                body: (#[trigger] question(seq, target_ip)),
            },
            ident.network_key@,
        )
}

/// A question for the peer behind an address.
pub open spec fn question(seq: u64, target_ip: IpAddr) -> Body {
    Body::LighthouseQuery { seq, target_ip }
}

/// Every connected lighthouse is asked for the peer behind an address, each with a packet that
/// goes to its endpoint in its session; nobody else is.
#[verifier::rlimit(50)]
#[verifier::spinoff_prover]
pub proof fn law_connected_lighthouses_are_asked(
    state: MeshState,
    ident: Identity,
    target_ip: IpAddr,
    addrs: Seq<SocketAddr>,
    after: MeshState,
    r: Seq<Option<Outgoing>>,
    i: int,
)
    requires
        state.discovery_asked(ident, target_ip, addrs, false, after, r),
        0 <= i < addrs.len(),
    ensures
        r.len() == addrs.len(),
        r[i] is Some <==> exists|id: u32| #[trigger] state.peers.contains_key(id) && state.peers[id].addr == addrs[i],
        r[i] is Some ==> r[i]->0.addr == addrs[i] && exists|to: u32| #[trigger]
            is_question(state, ident, to, target_ip, r[i]->0),
{
    let ids = choose|ids: Seq<Option<u32>>|
        {
            &&& ids.len() == addrs.len()
            &&& after == #[trigger] state.after_packets(ids, ids.len())
            &&& forall|i: int| 0 <= i < r.len() ==> state.asks(ident, addrs, ids, i, target_ip, #[trigger] r[i])
        };
    assert(state.asks(ident, addrs, ids, i, target_ip, r[i]));
    assert forall|j: int| 0 <= j < ids.len() && (#[trigger] ids[j]) is Some implies state.peers.contains_key(
        ids[j]->0,
    ) by {
        assert(state.asks(ident, addrs, ids, j, target_ip, r[j]));
    }
    lemma_question(state, ident, target_ip, addrs, ids, i, r[i]);
}

proof fn lemma_question(
    state: MeshState,
    ident: Identity,
    target_ip: IpAddr,
    addrs: Seq<SocketAddr>,
    ids: Seq<Option<u32>>,
    i: int,
    out: Option<Outgoing>,
)
    requires
        0 <= i < ids.len(),
        forall|j: int| 0 <= j < ids.len() && (#[trigger] ids[j]) is Some ==> state.peers.contains_key(ids[j]->0),
        state.asks(ident, addrs, ids, i, target_ip, out),
    ensures
        out is Some <==> exists|id: u32| #[trigger] state.peers.contains_key(id) && state.peers[id].addr == addrs[i],
        out is Some ==> out->0.addr == addrs[i] && exists|to: u32| #[trigger]
            is_question(state, ident, to, target_ip, out->0),
{
    if ids[i] is Some {
        let to = ids[i]->0;
        lemma_peers_after_packets(state, ids, i as nat, to);
        let seq = next_seq(state.after_packets(ids, i as nat).peers[to].tx_seq);
        assert(question(seq, target_ip) == Body::LighthouseQuery { seq, target_ip });
        assert(is_question(state, ident, to, target_ip, out->0));
    }
}

/// Packets change nothing of a peer but the number of the last packet.
proof fn lemma_peers_after_packets(state: MeshState, ids: Seq<Option<u32>>, n: nat, id: u32)
    requires
        n <= ids.len(),
        forall|i: int| 0 <= i < ids.len() && (#[trigger] ids[i]) is Some ==> state.peers.contains_key(ids[i]->0),
        state.peers.contains_key(id),
    ensures
        state.after_packets(ids, n).peers.contains_key(id),
        state.after_packets(ids, n).peers[id].addr == state.peers[id].addr,
        state.after_packets(ids, n).peers[id].tx_key == state.peers[id].tx_key,
        state.after_packets(ids, n).peers[id].tx_session_id == state.peers[id].tx_session_id,
    decreases n,
{
    if n > 0 {
        lemma_peers_after_packets(state, ids, (n - 1) as nat, id);
    }
}

} // verus!
