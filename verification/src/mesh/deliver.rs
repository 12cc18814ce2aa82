//! What a node does with the packets of its sessions.
use crate::addr::{IpAddr, IpNetwork, SocketAddr};
use crate::cert::{node_id, node_id_from_cert, Cert};
use crate::mesh::receive::Opened;
use crate::mesh::{
    is_packet, message_to, next_seq, sends, sends_all, Identity, Mesh, MeshState, Message, Outgoing, PeerState,
};
use crate::packet::{
    encrypt_keepalive_ack_packet, encrypt_lighthouse_not_found_packet, packet_seq, serialize_packet,
    try_encrypt_lighthouse_response_packet, Body, PacketBody,
};
use crate::route::{
    all_valid, any_contains, any_holds, authorized_ip, authorizes_ip, cert_ip, parse_source_ip, primary_cert_ip, route_of,
    source_ip,
};
use vstd::prelude::*;

verus! {

broadcast use vstd::std_specs::hash::group_hash_axioms;

/// Why a lighthouse's response is not followed.
#[derive(Debug, Clone, Copy, PartialEq, Eq, Structural)]
pub enum IntroductionError {
    CertInvalid,
    /// The certificate belongs to another peer.
    PeerIdMismatch,
    /// The certificate does not let its owner have the address that was asked for.
    IpNotAuthorized,
}

/// What a packet of a session leads to.
pub enum Delivery {
    /// The packet could not be read in full, or its sender is gone.
    Dropped,
    /// The packet was seen before, or is too old to tell.
    Replayed,
    /// An IP packet for the interface.
    ToInterface(Vec<u8>),
    /// An IP packet from an address that its sender must not use.
    Unauthorized,
    /// Packets to be sent, each split into fragments as needed.
    Send(Vec<Outgoing>),
    /// A packet to be passed on as it is.
    Forward(SocketAddr, Vec<u8>),
    /// A handshake to be started with a peer.
    Connect(u32, SocketAddr, String),
    RefusedIntroduction(IntroductionError),
    /// A lighthouse knows no peer behind the address.
    NotFound(IpAddr),
    /// A keepalive was answered.
    Acknowledged,
    /// The sender ended the session; these were its routes.
    Disconnected(Vec<IpNetwork>),
    /// There is nothing to do.
    Ignored,
}

/// What a lighthouse says of a peer.
pub open spec fn response_about(seq: u64, target_ip: IpAddr, about: u32, peer: PeerState) -> Body {
    Body::LighthouseResponse {
        seq,
        target_ip,
        peer_id: about,
        peer_addr: peer.addr,
        peer_cert: peer.cert.json(),
        peer_is_relay: peer.is_relay,
    }
}

/// Why a lighthouse's response about the peer `peer_id` behind `target_ip` is not followed.
pub open spec fn introduction_error(
    cert: Cert,
    ident: Identity,
    peer_id: u32,
    target_ip: IpAddr,
    now: u64,
) -> Option<IntroductionError> {
    if !cert.valid_at(ident.ca_vk, now as int) {
        Some(IntroductionError::CertInvalid)
    } else if node_id(cert.body.keys) != peer_id {
        Some(IntroductionError::PeerIdMismatch)
    } else if !authorized_ip(cert, target_ip) {
        Some(IntroductionError::IpNotAuthorized)
    } else {
        None
    }
}

impl MeshState {
    /// The state after a packet of a peer was accepted.
    pub open spec fn touched(self, id: u32, seq: u64, now: u64) -> MeshState {
        let peer = self.peers[id];
        MeshState {
            peers: self.peers.insert(id, PeerState { rx_replay: peer.rx_replay.after(seq), last_seen: now, ..peer }),
            ..self
        }
    }

    /// What a lighthouse sends when a peer asks for an address: who is behind it, to the
    /// one that asks; who asks, to the one behind it, if the two differ and the asking one
    /// has an address; or that nobody is.
    pub open spec fn query_messages(self, id: u32, target_ip: IpAddr) -> Seq<Message> {
        let asking = self.peers[id];
        let seq = next_seq(asking.tx_seq);
        match route_of(self.routes, target_ip) {
            None => seq![message_to(id, asking, Body::LighthouseNotFound { seq, target_ip })],
            Some(found) => {
                let target = self.peers[found];
                let answer = message_to(id, asking, response_about(seq, target_ip, found, target));
                if found != id && cert_ip(asking.cert) is Some {
                    seq![
                        answer,
                        message_to(
                            found,
                            target,
                            response_about(next_seq(target.tx_seq), cert_ip(asking.cert)->0, id, asking),
                        ),
                    ]
                } else {
                    seq![answer]
                }
            },
        }
    }

    /// The state after a lighthouse has answered.
    pub open spec fn after_query(self, id: u32, target_ip: IpAddr) -> MeshState {
        match route_of(self.routes, target_ip) {
            Some(found) => if found != id && cert_ip(self.peers[id].cert) is Some {
                self.with_next_seq(id).with_next_seq(found)
            } else {
                self.with_next_seq(id)
            },
            None => self.with_next_seq(id),
        }
    }

    /// Whether `after` and `r` are what a packet of a session of the peer `id` leads to. A
    /// packet whose sender is gone or whose certificate cannot be read is dropped, and one
    /// that came before is refused.
    pub open spec fn taken(
        self,
        ident: Identity,
        id: u32,
        body: Body,
        peer_cert: Option<Cert>,
        src: SocketAddr,
        now: u64,
        after: MeshState,
        r: Delivery,
    ) -> bool {
        if !self.peers.contains_key(id) || body is LighthouseResponse && peer_cert is None {
            after == self && r is Dropped
        } else if self.peers[id].rx_replay.refuses(body.seq()) {
            after == self && r is Replayed
        } else {
            self.touched(id, body.seq(), now).delivered(ident, id, body, peer_cert, src, now, after, r)
        }
    }

    /// Whether `after` and `r` are what an accepted packet from the peer `id` leads to.
    pub open spec fn delivered(
        self,
        ident: Identity,
        id: u32,
        body: Body,
        peer_cert: Option<Cert>,
        src: SocketAddr,
        now: u64,
        after: MeshState,
        r: Delivery,
    ) -> bool {
        let peer = self.peers[id];
        match body {
            Body::Data { ip_packet, .. } => {
                let source = source_ip(ip_packet);
                &&& after == self
                &&& if source is Some && any_holds(peer.routes@, source->0) {
                    r matches Delivery::ToInterface(packet) && packet@ == ip_packet
                } else {
                    r is Unauthorized
                }
            },
            Body::RelayForward { next_peer_id, inner_packet, .. } => {
                &&& after == self
                &&& if ident.am_relay && self.peers.contains_key(next_peer_id) {
                    r matches Delivery::Forward(addr, packet) && addr == self.peers[next_peer_id].addr && packet@
                        == inner_packet
                } else {
                    r is Ignored
                }
            },
            Body::Disconnect { .. } => {
                &&& after == (MeshState { established: self.established.remove(src), ..self.without(id) })
                &&& r matches Delivery::Disconnected(routes) && routes@ == peer.routes@
            },
            Body::LighthouseQuery { target_ip, .. } => if ident.am_lighthouse {
                &&& after == self.after_query(id, target_ip)
                &&& r matches Delivery::Send(out) && sends_all(
                    out@,
                    self.query_messages(id, target_ip),
                    ident.network_key@,
                ) && (route_of(self.routes, target_ip) is None ==> out@[0].wire is Some)
            } else {
                after == self && r is Ignored
            },
            Body::LighthouseResponse { target_ip, peer_id, peer_addr, .. } => {
                &&& after == self
                &&& peer_cert is Some
                &&& match introduction_error(peer_cert->0, ident, peer_id, target_ip, now) {
                    Some(e) => r == Delivery::RefusedIntroduction(e),
                    None => r matches Delivery::Connect(to, addr, name) && to == peer_id && addr == peer_addr
                        && name@ == peer_cert->0.body.meta.name@,
                }
            },
            Body::LighthouseNotFound { target_ip, .. } => after == self && r == Delivery::NotFound(target_ip),
            Body::Keepalive { token, .. } => {
                &&& after == self.with_next_seq(id)
                &&& r matches Delivery::Send(out) && sends_all(
                    out@,
                    seq![message_to(id, peer, Body::KeepaliveAck { seq: next_seq(peer.tx_seq), token })],
                    ident.network_key@,
                )
            },
            Body::KeepaliveAck { token, .. } => if self.keepalives.contains_key(id) && self.keepalives[id].token
                == token {
                after == (MeshState { keepalives: self.keepalives.remove(id), ..self }) && r is Acknowledged
            } else {
                after == self && r is Ignored
            },
        }
    }
}

impl Mesh {
    /// Tells a peer, as number `seq`, who is behind an address.
    fn tell_about(&self, ident: &Identity, id: u32, seq: u64, target_ip: IpAddr, about: u32) -> (r: Option<Outgoing>)
        requires
            self@.peers.contains_key(id),
            self@.peers.contains_key(about),
        ensures
            r matches Some(out) && sends(
                out,
                message_to(id, self@.peers[id], response_about(seq, target_ip, about, self@.peers[about])),
                ident.network_key@,
            ),
    {
        let peer = self.peers.get(&id)?;
        let other = self.peers.get(&about)?;
        let pkt = try_encrypt_lighthouse_response_packet(
            seq,
            id,
            peer.tx_session_id,
            target_ip,
            about,
            other.addr,
            &other.cert,
            other.is_relay,
            &ident.network_key,
            &peer.tx_key,
        );
        let wire = match &pkt {
            Some(pkt) => Some(serialize_packet(pkt)),
            None => None,
        };
        Some(Outgoing { addr: peer.addr, wire })
    }

    /// Tells a peer, as number `seq`, that nobody is behind an address.
    fn tell_not_found(&self, ident: &Identity, id: u32, seq: u64, target_ip: IpAddr) -> (r: Option<Outgoing>)
        requires
            self@.peers.contains_key(id),
        ensures
            r matches Some(out) && out.wire is Some && sends(
                out,
                message_to(id, self@.peers[id], Body::LighthouseNotFound { seq, target_ip }),
                ident.network_key@,
            ),
    {
        let peer = self.peers.get(&id)?;
        let pkt = encrypt_lighthouse_not_found_packet(
            seq,
            id,
            peer.tx_session_id,
            target_ip,
            &ident.network_key,
            &peer.tx_key,
        );
        Some(Outgoing { addr: peer.addr, wire: Some(serialize_packet(&pkt)) })
    }

    /// Answers a peer that asks for an address.
    #[verifier::rlimit(60)]
    #[verifier::spinoff_prover]
    fn answer_query(&mut self, ident: &Identity, id: u32, target_ip: IpAddr) -> (out: Vec<Outgoing>)
        requires
            old(self).wf(),
            old(self)@.peers.contains_key(id),
        ensures
            final(self).wf(),
            final(self)@ == old(self)@.after_query(id, target_ip),
            sends_all(out@, old(self)@.query_messages(id, target_ip), ident.network_key@),
            route_of(old(self)@.routes, target_ip) is None ==> out@[0].wire is Some,
    {
        let ghost before = self@;
        let ghost asking = before.peers[id];
        let mut out: Vec<Outgoing> = Vec::new();
        let found = self.routes.lookup(target_ip);
        let seq: u64 = self.next_seq_for(id);
        let found: u32 = match found {
            Some(found) => found,
            None => {
                if let Some(o) = self.tell_not_found(ident, id, seq, target_ip) {
                    out.push(o);
                }
                assert(out@.len() == 1);
                return out;
            },
        };
        proof {
            let i = choose|i: int| crate::route::is_best(before.routes, target_ip, i);
            assert(before.peers.contains_key(before.routes[i].1));
        }
        let ghost target = before.peers[found];
        if let Some(o) = self.tell_about(ident, id, seq, target_ip, found) {
            out.push(o);
        }
        let ghost answer = message_to(id, asking, response_about(seq, target_ip, found, target));
        assert(sends(out@[0], answer, ident.network_key@));
        if found == id {
            return out;
        }
        let asking_ip = match self.peers.get(&id) {
            Some(peer) => primary_cert_ip(&peer.cert),
            None => None,
        };
        if let Some(asking_ip) = asking_ip {
            let seq: u64 = self.next_seq_for(found);
            if let Some(o) = self.tell_about(ident, found, seq, asking_ip, id) {
                out.push(o);
            }
            assert(sends(
                out@[1],
                message_to(found, target, response_about(seq, asking_ip, id, asking)),
                ident.network_key@,
            ));
        }
        out
    }

    /// Marks a packet of a peer as seen; `false` if the packet is refused.
    fn accept(&mut self, id: u32, seq: u64, now: u64) -> (r: bool)
        requires
            old(self).wf(),
            old(self)@.peers.contains_key(id),
        ensures
            final(self).wf(),
            r == !old(self)@.peers[id].rx_replay.refuses(seq),
            final(self)@ == (if r {
                old(self)@.touched(id, seq, now)
            } else {
                old(self)@
            }),
    {
        let ghost before = self@;
        match self.peers.remove(&id) {
            Some(peer) => {
                let mut peer = peer;
                let fresh = peer.rx_replay.accept(seq);
                if fresh {
                    peer.last_seen = now;
                }
                self.peers.insert(id, peer);
                assert(fresh ==> self@.peers =~= before.touched(id, seq, now).peers);
                assert(!fresh ==> self@.peers =~= before.peers);
                fresh
            },
            None => false,
        }
    }

    /// Takes an endpoint out of those with an established handshake.
    fn forget_endpoint(&mut self, addr: SocketAddr)
        requires
            old(self).wf(),
        ensures
            final(self).wf(),
            final(self)@ == (MeshState { established: old(self)@.established.remove(addr), ..old(self)@ }),
    {
        let ghost before = self.established@;
        let mut kept: Vec<SocketAddr> = Vec::new();
        let mut i: usize = 0;
        while i < self.established.len()
            invariant
                i <= self.established@.len(),
                self.established@ == before,
                forall|a: SocketAddr| #[trigger]
                    kept@.contains(a) == (before.take(i as int).contains(a) && a != addr),
            decreases self.established@.len() - i,
        {
            let a = self.established[i];
            let ghost kept_before = kept@;
            if a != addr {
                kept.push(a);
            }
            proof {
                assert(before.take(i + 1) =~= before.take(i as int).push(a));
                lemma_push_contains(before.take(i as int), a);
                lemma_push_contains(kept_before, a);
            }
            i = i + 1;
        }
        self.established = kept;
        proof {
            assert(before.take(i as int) =~= before);
            assert(self.established@.to_set() =~= before.to_set().remove(addr));
        }
    }

    /// Checks a lighthouse's response.
    fn check_introduction(
        ident: &Identity,
        cert: &Cert,
        peer_id: u32,
        target_ip: IpAddr,
        now: u64,
    ) -> (r: Option<IntroductionError>)
        ensures
            r == introduction_error(*cert, *ident, peer_id, target_ip, now),
    {
        if !cert.verify_at(&ident.ca_vk, now) {
            return Some(IntroductionError::CertInvalid);
        }
        if node_id_from_cert(cert) != peer_id {
            return Some(IntroductionError::PeerIdMismatch);
        }
        if !authorizes_ip(cert, target_ip) {
            return Some(IntroductionError::IpNotAuthorized);
        }
        None
    }

    /// Acts on a packet of a session that came from `src`. `peer_cert` is what the
    /// certificate in a lighthouse's response reads as, and `None` where it cannot be read.
    #[verifier::rlimit(60)]
    #[verifier::spinoff_prover]
    pub fn deliver(
        &mut self,
        ident: &Identity,
        opened: Opened,
        peer_cert: Option<Cert>,
        src: SocketAddr,
        now: u64,
    ) -> (r: Delivery)
        requires
            old(self).wf(),
        ensures
            final(self).wf(),
            old(self)@.taken(*ident, opened.peer_id, opened.body@, peer_cert, src, now, final(self)@, r),
    {
        let id: u32 = opened.peer_id;
        if !self.peers.contains_key(&id) {
            return Delivery::Dropped;
        }
        let unread = match &opened.body {
            PacketBody::LighthouseResponse { .. } => peer_cert.is_none(),
            _ => false,
        };
        if unread {
            return Delivery::Dropped;
        }
        if !self.accept(id, packet_seq(&opened.body), now) {
            return Delivery::Replayed;
        }
        self.act(ident, id, opened.body, peer_cert, src, now)
    }

    /// Acts on an accepted packet.
    #[verifier::rlimit(60)]
    #[verifier::spinoff_prover]
    fn act(
        &mut self,
        ident: &Identity,
        id: u32,
        body: PacketBody,
        peer_cert: Option<Cert>,
        src: SocketAddr,
        now: u64,
    ) -> (r: Delivery)
        requires
            old(self).wf(),
            old(self)@.peers.contains_key(id),
            body is LighthouseResponse ==> peer_cert is Some,
        ensures
            final(self).wf(),
            old(self)@.delivered(*ident, id, body@, peer_cert, src, now, final(self)@, r),
    {
        match body {
            PacketBody::Data { ip_packet, .. } => {
                if self.allows_source(id, ip_packet.as_slice()) {
                    Delivery::ToInterface(ip_packet)
                } else {
                    Delivery::Unauthorized
                }
            },
            PacketBody::RelayForward { next_peer_id, inner_packet, .. } => {
                if !ident.am_relay {
                    return Delivery::Ignored;
                }
                match self.peers.get(&next_peer_id) {
                    Some(next) => Delivery::Forward(next.addr, inner_packet),
                    None => Delivery::Ignored,
                }
            },
            PacketBody::Disconnect { .. } => {
                let peer = self.remove_peer(id);
                self.forget_endpoint(src);
                match peer {
                    Some(peer) => {
                        let mut peer = peer;
                        peer.zeroize();
                        Delivery::Disconnected(peer.routes)
                    },
                    None => Delivery::Dropped,
                }
            },
            PacketBody::LighthouseQuery { target_ip, .. } => {
                if !ident.am_lighthouse {
                    return Delivery::Ignored;
                }
                Delivery::Send(self.answer_query(ident, id, target_ip))
            },
            PacketBody::LighthouseResponse { target_ip, peer_id, peer_addr, .. } => match peer_cert {
                Some(cert) => match Mesh::check_introduction(ident, &cert, peer_id, target_ip, now) {
                    Some(e) => Delivery::RefusedIntroduction(e),
                    None => Delivery::Connect(peer_id, peer_addr, cert.body.meta.name),
                },
                None => Delivery::Dropped,
            },
            PacketBody::LighthouseNotFound { target_ip, .. } => Delivery::NotFound(target_ip),
            PacketBody::Keepalive { token, .. } => Delivery::Send(self.acknowledge(ident, id, token)),
            PacketBody::KeepaliveAck { token, .. } => {
                let awaited = match self.keepalives.get(&id) {
                    Some(waiting) => waiting.token == token,
                    None => false,
                };
                if !awaited {
                    return Delivery::Ignored;
                }
                self.keepalives.remove(&id);
                assert(self@.keepalives =~= old(self)@.keepalives.remove(id));
                Delivery::Acknowledged
            },
        }
    }

    /// Whether a peer may send an IP packet: its source address lies in one of the peer's
    /// routes.
    fn allows_source(&self, id: u32, ip_packet: &[u8]) -> (r: bool)
        requires
            self.wf(),
            self@.peers.contains_key(id),
        ensures
            r == (source_ip(ip_packet@) is Some && any_holds(self@.peers[id].routes@, source_ip(ip_packet@)->0)),
    {
        match self.peers.get(&id) {
            Some(peer) => peer_allows_ip_packet_source(peer, ip_packet),
            None => false,
        }
    }

    /// Answers a keepalive.
    #[verifier::rlimit(50)]
    #[verifier::spinoff_prover]
    fn acknowledge(&mut self, ident: &Identity, id: u32, token: u64) -> (out: Vec<Outgoing>)
        requires
            old(self).wf(),
            old(self)@.peers.contains_key(id),
        ensures
            final(self).wf(),
            final(self)@ == old(self)@.with_next_seq(id),
            sends_all(
                out@,
                seq![
                    message_to(
                        id,
                        old(self)@.peers[id],
                        Body::KeepaliveAck { seq: next_seq(old(self)@.peers[id].tx_seq), token },
                    ),
                ],
                ident.network_key@,
            ),
    {
        let seq: u64 = self.next_seq_for(id);
        let mut out: Vec<Outgoing> = Vec::new();
        let ghost before = old(self)@.peers[id];
        let ghost message = message_to(id, before, Body::KeepaliveAck { seq: next_seq(before.tx_seq), token });
        if let Some(peer) = self.peers.get(&id) {
            let pkt = encrypt_keepalive_ack_packet(
                seq,
                id,
                peer.tx_session_id,
                token,
                &ident.network_key,
                &peer.tx_key,
            );
            let answer = Outgoing { addr: peer.addr, wire: Some(serialize_packet(&pkt)) };
            assert(is_packet(answer.wire->0@, message, ident.network_key@)) by {
                assert(pkt.wire() == answer.wire->0@);
            }
            assert(message.body.sealable());
            assert(sends(answer, message, ident.network_key@));
            out.push(answer);
        }
        out
    }
}

/// Whether a peer may send an IP packet: its source address lies in one of the peer's
/// routes.
pub fn peer_allows_ip_packet_source(peer: &PeerState, packet: &[u8]) -> (r: bool)
    requires
        all_valid(peer.routes@),
    ensures
        r == (source_ip(packet@) is Some && any_holds(peer.routes@, source_ip(packet@)->0)),
{
    match parse_source_ip(packet) {
        Some(src) => any_contains(peer.routes.as_slice(), src),
        None => false,
    }
}

proof fn lemma_push_contains(s: Seq<SocketAddr>, x: SocketAddr)
    ensures
        forall|y: SocketAddr| #[trigger] s.push(x).contains(y) == (s.contains(y) || y == x),
{
    assert forall|y: SocketAddr| #[trigger] s.push(x).contains(y) == (s.contains(y) || y == x) by {
        if s.contains(y) {
            let k = choose|k: int| 0 <= k < s.len() && s[k] == y;
            assert(s.push(x)[k] == y);
        }
        if y == x {
            assert(s.push(x)[s.len() as int] == y);
        }
    }
}

} // verus!
