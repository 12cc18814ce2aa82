//! How the nodes of a mesh reach one another: every address of a joined node leads to it, a
//! lighthouse introduces the two ends, and an IP packet arrives as it was sent.
use crate::addr::{law_network_is_a_range, IpAddr, IpNetwork, SocketAddr};
use crate::cert::Cert;
use crate::mesh::deliver::Delivery;
use crate::mesh::laws::{law_sent_packet_is_opened, lemma_routes_are_added};
use crate::mesh::outbound::TunAction;
use crate::mesh::receive::Step;
use crate::mesh::service::{
    is_from, is_to, law_addresses_stand_in_the_header, law_packets_from_granted_addresses_are_handed_on,
};
use crate::mesh::{
    is_authorized_list, is_new_peer, is_packet, message_to, next_seq, with_routes, Identity, MeshState, Message,
    Outgoing, PeerState,
};
use crate::packet::{traffic_key_of, Body};
use crate::route::grants::{law_routes_hold_the_addresses_of_the_owner, may_use, prefixes_fit};
use crate::route::lookup::{law_new_route_leaves_the_rest, lemma_some_route_is_best};
use crate::route::{
    all_valid, any_holds, is_best, leads_elsewhere, lemma_filter_comes_from, lemma_route_of, overlay_broadcast,
    route_of,
};
use vstd::arithmetic::power2::lemma2_to64;
use vstd::prelude::*;

verus! {

/// A route in the table after those of a peer were added was there before, or is the peer's.
proof fn lemma_route_is_old_or_added(table: Seq<(IpNetwork, u32)>, routes: Seq<IpNetwork>, id: u32, i: int)
    requires
        0 <= i < with_routes(table, routes, id).len(),
        with_routes(table, routes, id)[i].1 != id,
    ensures
        table.contains(with_routes(table, routes, id)[i]),
    decreases routes.len(),
{
    if routes.len() > 0 {
        let before = with_routes(table, routes.drop_last(), id);
        let keep = leads_elsewhere(routes.last());
        assert(with_routes(table, routes, id) == before.filter(keep).push((routes.last(), id)));
        assert(i < before.filter(keep).len());
        lemma_filter_comes_from(before, keep, i);
        let j = choose|j: int| 0 <= j < before.len() && #[trigger] before[j] == before.filter(keep)[i];
        lemma_route_is_old_or_added(table, routes.drop_last(), id, j);
    } else {
        assert(table[i] == with_routes(table, routes, id)[i]);
    }
}

/// Whether the routes of a peer for an address go before those of the others: each other
/// peer's route that holds the address is for a network which the peer has a route for too, or
/// is wider than one of the peer's routes that hold it.
pub open spec fn comes_first(table: Seq<(IpNetwork, u32)>, routes: Seq<IpNetwork>, id: u32, ip: IpAddr) -> bool {
    forall|i: int|
        0 <= i < table.len() && (#[trigger] table[i]).0.holds(ip) && table[i].1 != id ==> exists|k: int|
            0 <= k < routes.len() && (#[trigger] routes[k]).holds(ip) && (routes[k] == table[i].0 || routes[k].prefix
                > table[i].0.prefix)
}

/// Once a node has joined, every address that it may be at leads to it: its own, and each one
/// in a subnet that its certificate announces by a grant. The exception is an address for
/// which another node has a closer route.
#[verifier::rlimit(50)]
#[verifier::spinoff_prover]
pub proof fn law_joined_node_is_reached(state: MeshState, id: u32, peer: PeerState, addr: SocketAddr, ip: IpAddr)
    requires
        prefixes_fit(),
        state.consistent(),
        is_authorized_list(peer.routes@, peer.cert),
        all_valid(peer.routes@),
        may_use(peer.cert, ip),
        comes_first(state.routes, peer.routes@, id, ip),
    ensures
        route_of(state.joined(id, peer, addr).routes, ip) == Some(id),
{
    let routes = peer.routes@;
    let table = with_routes(state.routes, routes, id);
    state.law_with_peer_is_consistent(id, peer);
    law_routes_hold_the_addresses_of_the_owner(peer.cert, routes, ip);
    let k = choose|k: int| 0 <= k < routes.len() && (#[trigger] routes[k]).holds(ip);
    lemma_routes_are_added(state.routes, routes, id, k);
    let t = choose|t: int| 0 <= t < table.len() && table[t] == (routes[k], id);
    lemma_some_route_is_best(table, ip, t);
    let b = choose|b: int| is_best(table, ip, b);
    lemma_route_of(table, ip, b);
    if table[b].1 != id {
        lemma_route_is_old_or_added(state.routes, routes, id, b);
        let o = choose|o: int| 0 <= o < state.routes.len() && state.routes[o] == table[b];
        let n = choose|n: int|
            0 <= n < routes.len() && (#[trigger] routes[n]).holds(ip) && (routes[n] == state.routes[o].0
                || routes[n].prefix > state.routes[o].0.prefix);
        lemma_routes_are_added(state.routes, routes, id, n);
        let m = choose|m: int| 0 <= m < table.len() && table[m] == (routes[n], id);
        assert(table[m].0.holds(ip));
        assert(table[m].0 == table[b].0);
        assert(m != b);
    }
}

/// A node that joins takes no address from the others but those that it may be at.
pub proof fn law_joining_leaves_the_rest(state: MeshState, id: u32, peer: PeerState, addr: SocketAddr, ip: IpAddr)
    requires
        prefixes_fit(),
        is_authorized_list(peer.routes@, peer.cert),
        !may_use(peer.cert, ip),
    ensures
        route_of(state.joined(id, peer, addr).routes, ip) == route_of(state.routes, ip),
{
    law_routes_hold_the_addresses_of_the_owner(peer.cert, peer.routes@, ip);
    lemma_added_routes_leave_the_rest(state.routes, peer.routes@, id, ip);
}

proof fn lemma_added_routes_leave_the_rest(table: Seq<(IpNetwork, u32)>, routes: Seq<IpNetwork>, id: u32, ip: IpAddr)
    requires
        !any_holds(routes, ip),
    ensures
        route_of(with_routes(table, routes, id), ip) == route_of(table, ip),
    decreases routes.len(),
{
    if routes.len() > 0 {
        assert forall|i: int| 0 <= i < routes.drop_last().len() implies !(#[trigger] routes.drop_last()[i]).holds(
            ip,
        ) by {
            assert(!routes[i].holds(ip));
        }
        assert(!routes[routes.len() - 1].holds(ip));
        lemma_added_routes_leave_the_rest(table, routes.drop_last(), id, ip);
        law_new_route_leaves_the_rest(with_routes(table, routes.drop_last(), id), routes.last(), id, ip);
    }
}

/// A node that joins is known by its number and its session, is at the endpoint that it came
/// from, and stays known for 300 seconds without another word. The first packet for it has the
/// number 1, and none of its own was seen. Nothing changes for the other
/// nodes, nor for the handshakes and keepalives under way.
#[verifier::rlimit(50)]
#[verifier::spinoff_prover]
pub proof fn law_joined_node_is_known(
    state: MeshState,
    our_id: u32,
    id: u32,
    sk: Seq<u8>,
    cert: Cert,
    is_relay: bool,
    tx: u32,
    rx: u32,
    peer: PeerState,
    addr: SocketAddr,
    now: u64,
    later: u64,
)
    requires
        is_new_peer(peer, our_id, id, sk, cert, addr, is_relay, tx, rx, now),
        later <= now + 300,
    ensures
        ({
            let after = state.joined(id, peer, addr);
            &&& after.peers.contains_key(id)
            &&& after.peers[id].addr == addr
            &&& after.peers[id].cert == cert
            &&& after.peers[id].is_relay == is_relay
            &&& after.peers[id].tx_session_id == tx
            &&& after.peers[id].tx_key@ == traffic_key_of(sk, our_id, id)
            &&& after.peers[id].rx_key@ == traffic_key_of(sk, id, our_id)
            &&& !after.peers[id].rx_replay.initialized
            &&& is_next(after, id, 1)
            &&& after.established.contains(addr)
            &&& after.rx_sessions.contains_key(rx)
            &&& after.rx_sessions[rx] == id
            &&& !after.expired(id, later)
            &&& after.pending == state.pending
            &&& after.keepalives == state.keepalives
            &&& forall|a: SocketAddr| a != addr ==> #[trigger] after.established.contains(a)
                == state.established.contains(a)
            &&& forall|other: u32|
                other != id ==> #[trigger] after.peers.contains_key(other) == state.peers.contains_key(other)
            &&& forall|other: u32|
                other != id && state.peers.contains_key(other) ==> #[trigger] after.peers[other] == state.peers[other]
            &&& forall|s: u32|
                state.rx_sessions.contains_key(s) && s != rx && !(state.peers.contains_key(id)
                    && state.peers[id].rx_session_id == s) ==> #[trigger] after.rx_sessions.contains_key(s)
                    && after.rx_sessions[s] == state.rx_sessions[s]
        }),
{
}

/// The routes that a joined node is given hold exactly the addresses that it may be at: its own,
/// and each one in a subnet that its certificate announces by a grant. They are all in the
/// table, under its number.
pub proof fn law_joined_node_has_its_routes(
    state: MeshState,
    our_id: u32,
    id: u32,
    sk: Seq<u8>,
    cert: Cert,
    is_relay: bool,
    tx: u32,
    rx: u32,
    peer: PeerState,
    addr: SocketAddr,
    now: u64,
    ip: IpAddr,
)
    requires
        prefixes_fit(),
        is_new_peer(peer, our_id, id, sk, cert, addr, is_relay, tx, rx, now),
    ensures
        any_holds(state.joined(id, peer, addr).peers[id].routes@, ip) <==> may_use(cert, ip),
        forall|k: int|
            0 <= k < peer.routes@.len() ==> state.joined(id, peer, addr).routes.contains((#[trigger] peer.routes@[k], id)),
{
    law_routes_hold_the_addresses_of_the_owner(cert, peer.routes@, ip);
    assert forall|k: int| 0 <= k < peer.routes@.len() implies state.joined(id, peer, addr).routes.contains(
        (#[trigger] peer.routes@[k], id),
    ) by {
        lemma_routes_are_added(state.routes, peer.routes@, id, k);
    }
}

/// Whether an address is for a single node: it is not multicast (224 to 239, or `ff`), not
/// link-local (169.254, or the first ten bits of `fe80`), and not the last one of an overlay
/// network of more than one address.
pub open spec fn is_for_one_node(ip: IpAddr, overlay: Seq<IpNetwork>) -> bool {
    match ip {
        IpAddr::V4(b) => {
            &&& !(224 <= b / 0x100_0000 <= 239)
            &&& !(b / 0x1_0000 == 169 * 256 + 254)
            &&& forall|i: int| 0 <= i < overlay.len() ==> !is_last_address(#[trigger] overlay[i], b)
        },
        IpAddr::V6(b) => {
            &&& !(b / 0x1_0000_0000_0000_0000_0000_0000_0000 / 0x100 == 0xff)
            &&& !(0xfe80 <= b / 0x1_0000_0000_0000_0000_0000_0000_0000 < 0xfec0)
        },
    }
}

/// Whether an address is the highest one in an IPv4 network of more than one address.
pub open spec fn is_last_address(net: IpNetwork, b: u32) -> bool {
    &&& net.prefix < 32
    &&& net.holds(IpAddr::V4(b))
    &&& forall|other: u32| #[trigger] net.holds(IpAddr::V4(other)) ==> other <= b
}

proof fn lemma_last_address(net: IpNetwork, b: u32)
    requires
        net.valid(),
        net.prefix < 32,
    ensures
        is_last_address(net, b) <==> net.ip is V4 && net.last_number() == b,
{
    law_network_is_a_range(net, IpAddr::V4(b));
    assert forall|other: u32| net.ip is V4 && net.last_number() == b && #[trigger] net.holds(
        IpAddr::V4(other),
    ) implies other <= b by {
        law_network_is_a_range(net, IpAddr::V4(other));
    }
    if is_last_address(net, b) {
        lemma2_to64();
        let last = net.last_number() as u32;
        law_network_is_a_range(net, IpAddr::V4(last));
    }
}

/// Whether `out` says `body` to the peer `to`: it goes to the peer's endpoint and, unless it
/// would be too long to be encrypted, is a packet with that body, of the session that the peer
/// receives on and under the key for that direction.
pub open spec fn says(state: MeshState, ident: Identity, to: u32, body: Body, out: Outgoing) -> bool {
    let peer = state.peers[to];
    &&& state.peers.contains_key(to)
    &&& out.addr == peer.addr
    &&& out.wire is Some <==> body.sealable()
    &&& out.wire matches Some(wire) ==> is_packet(
        wire@,
        Message {
            addr: peer.addr,
            dst_peer_id: to,
            session_id: peer.tx_session_id,
            key: peer.tx_key@,
            body,
        },
        ident.network_key@,
    )
}

/// Whether `seq` is the number of the next packet for a peer: one more than the last one, or
/// zero after the highest.
pub open spec fn is_next(state: MeshState, id: u32, seq: u64) -> bool {
    seq == (state.peers[id].tx_seq + 1) % 0x1_0000_0000_0000_0000
}

/// The packets for a peer are numbered one after the other, and no number is used again
/// before all were.
pub proof fn law_packets_are_numbered(state: MeshState, id: u32, other: u32)
    requires
        state.peers.contains_key(id),
    ensures
        is_next(state, id, state.with_next_seq(id).peers[id].tx_seq),
        other != id && state.peers.contains_key(other) ==> state.with_next_seq(id).peers[other] == state.peers[other],
        state.with_next_seq(id).routes == state.routes,
        state.with_next_seq(id).rx_sessions == state.rx_sessions,
{
}

/// An IP packet for a single node goes to the peer that its destination lies behind, as the
/// next packet of that peer's session; without such a peer a lighthouse is to be asked. A
/// packet for several nodes or for the link stays here.
#[verifier::rlimit(50)]
#[verifier::spinoff_prover]
pub proof fn law_ip_packets_go_to_their_node(
    state: MeshState,
    ident: Identity,
    ip_packet: Seq<u8>,
    overlay: Seq<IpNetwork>,
    after: MeshState,
    r: TunAction,
    ip: IpAddr,
)
    requires
        state.consistent(),
        all_valid(overlay),
        state.ip_packet_sent(ident, ip_packet, overlay, after, r),
        is_to(ip_packet, ip),
    ensures
        !is_for_one_node(ip, overlay) ==> r == TunAction::Skipped(ip),
        is_for_one_node(ip, overlay) ==> match route_of(state.routes, ip) {
            None => r == TunAction::NoRoute(ip),
            Some(id) => {
                &&& r is Send
                &&& r->Send_0 == id
                &&& r->Send_1.wire is Some
                &&& exists|seq: u64|
                    is_next(state, id, seq) && after.peers[id].tx_seq == seq && says(
                        state,
                        ident,
                        id,
                        #[trigger] data(seq, ip_packet),
                        r->Send_1,
                    )
            },
        },
        after.routes == state.routes,
{
    law_addresses_stand_in_the_header(ip_packet, ip);
    lemma_for_one_node(ip, overlay);
    if is_for_one_node(ip, overlay) && route_of(state.routes, ip) is Some {
        let id = route_of(state.routes, ip)->0;
        let seq = next_seq(state.peers[id].tx_seq);
        assert(says(state, ident, id, data(seq, ip_packet), r->Send_1));
    }
}

/// A packet that carries an IP packet.
pub open spec fn data(seq: u64, ip_packet: Seq<u8>) -> Body {
    Body::Data { seq, ip_packet }
}

proof fn lemma_for_one_node(ip: IpAddr, overlay: Seq<IpNetwork>)
    requires
        all_valid(overlay),
    ensures
        is_for_one_node(ip, overlay) == !(ip.multicast() || ip.link_local() || overlay_broadcast(ip, overlay)),
{
    if let IpAddr::V4(b) = ip {
        assert forall|i: int| 0 <= i < overlay.len() implies is_last_address(#[trigger] overlay[i], b) == (
        overlay[i].ip is V4 && overlay[i].prefix < 32 && overlay[i].last_number() == b) by {
            if overlay[i].prefix < 32 {
                lemma_last_address(overlay[i], b);
            }
        }
    }
}

/// What is no IP packet with a destination goes nowhere.
pub proof fn law_packets_without_a_destination_go_nowhere(
    state: MeshState,
    ident: Identity,
    ip_packet: Seq<u8>,
    overlay: Seq<IpNetwork>,
    after: MeshState,
    r: TunAction,
)
    requires
        state.ip_packet_sent(ident, ip_packet, overlay, after, r),
        forall|ip: IpAddr| !is_to(ip_packet, ip),
    ensures
        r is Unparsable,
        after == state,
{
    if crate::route::dest_ip(ip_packet) is Some {
        law_addresses_stand_in_the_header(ip_packet, crate::route::dest_ip(ip_packet)->0);
    }
}

/// An IP packet crosses the mesh: sent by `a` to the node that its destination lies behind,
/// with a source that `a` may be at, it is handed to that node's interface as it was sent, if
/// its number was not seen there and the two ends share the session.
#[verifier::rlimit(50)]
#[verifier::spinoff_prover]
pub proof fn law_ip_packet_crosses_the_mesh(
    sender: MeshState,
    ident_a: Identity,
    ip_packet: Seq<u8>,
    overlay: Seq<IpNetwork>,
    sender_after: MeshState,
    sent: TunAction,
    to: IpAddr,
    from: IpAddr,
    receiver: MeshState,
    ident_b: Identity,
    a: u32,
    src: SocketAddr,
    now: u64,
    after: MeshState,
    r: Delivery,
    body: Body,
)
    requires
        prefixes_fit(),
        sender.consistent(),
        all_valid(overlay),
        is_to(ip_packet, to),
        is_from(ip_packet, from),
        is_for_one_node(to, overlay),
        route_of(sender.routes, to) == Some(ident_b.our_id),
        sender.ip_packet_sent(ident_a, ip_packet, overlay, sender_after, sent),
        ident_a.network_key@ == ident_b.network_key@,
        receiver.peers.contains_key(a),
        is_authorized_list(receiver.peers[a].routes@, receiver.peers[a].cert),
        may_use(receiver.peers[a].cert, from),
        receiver.rx_sessions.contains_key(sender.peers[ident_b.our_id].tx_session_id),
        receiver.rx_sessions[sender.peers[ident_b.our_id].tx_session_id] == a,
        receiver.peers[a].rx_key@ == sender.peers[ident_b.our_id].tx_key@,
        !receiver.peers[a].rx_replay.refuses(sender_after.peers[ident_b.our_id].tx_seq),
        receiver.opened(ident_b, sent->Send_1.wire->0@) == Some((a, body)),
        receiver.taken(ident_b, a, body, None, src, now, after, r),
        ip_packet.len() <= u32::MAX,
    ensures
        receiver.step(ident_b, sent->Send_1.wire->0@) == Step::Session,
        r is ToInterface,
        r->ToInterface_0@ == ip_packet,
{
    let b = ident_b.our_id;
    law_ip_packets_go_to_their_node(sender, ident_a, ip_packet, overlay, sender_after, sent, to);
    let seq = sender_after.peers[b].tx_seq;
    let wire = sent->Send_1.wire->0@;
    assert(is_packet(wire, message_to(b, sender.peers[b], data(seq, ip_packet)), ident_b.network_key@));
    law_sent_packet_is_opened(wire, data(seq, ip_packet), sender.peers[b], receiver, ident_b, a);
    law_packets_from_granted_addresses_are_handed_on(
        receiver,
        ident_b,
        a,
        seq,
        ip_packet,
        None,
        src,
        now,
        after,
        r,
        from,
    );
}

} // verus!
