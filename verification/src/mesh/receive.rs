//! What a node does with the datagrams that it receives.
use crate::addr::SocketAddr;
use crate::frag::{fed, Fed, FeedResult, FragmentAssembler, Pending};
use crate::handshake::{KIND_HANDSHAKE_1, KIND_HANDSHAKE_2};
use crate::mesh::{Identity, Mesh, MeshState};
use crate::packet::{decrypt_packet, decrypted, network_header, wire_header, Body, NetworkHeader, PacketBody};
use vstd::prelude::*;

verus! {

broadcast use vstd::std_specs::hash::group_hash_axioms;

/// Where a packet goes.
#[derive(Debug, Clone, Copy, PartialEq, Eq, Structural)]
pub enum Routing {
    /// It is for this node, or for anyone.
    Local,
    /// It is passed on as it is.
    Relay(SocketAddr),
    /// It is for another node that this one does not pass it on to.
    Drop,
}

/// What a received datagram gives.
pub enum Received {
    Nothing,
    /// The datagram is passed on as it is.
    Relay(SocketAddr),
    /// A packet to go on with: the datagram, or the message that it completed.
    Packet(Vec<u8>),
}

/// What is done with a packet.
#[derive(Debug, Clone, Copy, PartialEq, Eq, Structural)]
pub enum Step {
    Nothing,
    /// The packet is passed on as it is.
    Relay(SocketAddr),
    Handshake1,
    /// An answer to the handshake that would open the given session.
    Handshake2(u32),
    /// A packet of a session.
    Session,
}

impl MeshState {
    /// Where a packet with a given header goes.
    pub open spec fn routing(self, ident: Identity, header: NetworkHeader) -> Routing {
        if header.dst_peer_id == 0 || header.dst_peer_id == ident.our_id {
            Routing::Local
        } else if ident.am_relay && self.peers.contains_key(header.dst_peer_id) {
            Routing::Relay(self.peers[header.dst_peer_id].addr)
        } else {
            Routing::Drop
        }
    }

    /// What a received datagram gives, and what becomes of the fragments that are waiting.
    pub open spec fn reception(
        self,
        ident: Identity,
        waiting: Seq<Pending>,
        src: SocketAddr,
        data: Seq<u8>,
        now: u64,
    ) -> (Seq<Pending>, Reception) {
        let header = wire_header(data, ident.network_key@);
        let routing = if header is Some {
            self.routing(ident, header->0)
        } else {
            Routing::Local
        };
        if data.len() == 0 || routing == Routing::Drop {
            (waiting, Reception::Nothing)
        } else if let Routing::Relay(addr) = routing {
            (waiting, Reception::Relay(addr))
        } else {
            let (after, result) = fed(waiting, src, data, ident.network_key@, now);
            (
                after,
                match result {
                    Fed::Complete(message) => Reception::Packet(message),
                    Fed::Buffered => Reception::Nothing,
                    Fed::NotFragment => Reception::Packet(data),
                },
            )
        }
    }

    /// What is done with a packet.
    pub open spec fn step(self, ident: Identity, packet: Seq<u8>) -> Step {
        match wire_header(packet, ident.network_key@) {
            None => Step::Nothing,
            Some(header) => if header.kind == KIND_HANDSHAKE_1 {
                Step::Handshake1
            } else if header.kind == KIND_HANDSHAKE_2 {
                Step::Handshake2(header.session_id)
            } else {
                match self.routing(ident, header) {
                    Routing::Local => Step::Session,
                    Routing::Relay(addr) => Step::Relay(addr),
                    Routing::Drop => Step::Nothing,
                }
            },
        }
    }

    /// The peer that a packet of a session comes from, and what it says.
    pub open spec fn opened(self, ident: Identity, packet: Seq<u8>) -> Option<(u32, Body)> {
        match wire_header(packet, ident.network_key@) {
            None => None,
            Some(header) => if self.rx_sessions.contains_key(header.session_id) && self.peers.contains_key(
                self.rx_sessions[header.session_id],
            ) {
                let id = self.rx_sessions[header.session_id];
                match decrypted(packet, ident.network_key@, self.peers[id].rx_key@) {
                    Some((_, body)) => Some((id, body)),
                    None => None,
                }
            } else {
                None
            },
        }
    }
}

/// The mathematical value of a `Received`.
pub enum Reception {
    Nothing,
    Relay(SocketAddr),
    Packet(Seq<u8>),
}

impl View for Received {
    type V = Reception;

    open spec fn view(&self) -> Reception {
        match *self {
            Received::Nothing => Reception::Nothing,
            Received::Relay(addr) => Reception::Relay(addr),
            Received::Packet(packet) => Reception::Packet(packet@),
        }
    }
}

/// A packet of a session that was opened.
pub struct Opened {
    pub peer_id: u32,
    pub body: PacketBody,
}

impl Mesh {
    /// Where a packet with a given header goes.
    fn route_header(&self, ident: &Identity, header: NetworkHeader) -> (r: Routing)
        ensures
            r == self@.routing(*ident, header),
    {
        if header.dst_peer_id == 0 || header.dst_peer_id == ident.our_id {
            return Routing::Local;
        }
        if !ident.am_relay {
            return Routing::Drop;
        }
        match self.peers.get(&header.dst_peer_id) {
            Some(peer) => Routing::Relay(peer.addr),
            None => Routing::Drop,
        }
    }

    /// Takes in a datagram that came from `src` at the time `now`, in nanoseconds: it is
    /// passed on, or waits for the rest of its message, or gives a packet to go on with.
    pub fn receive(
        &self,
        ident: &Identity,
        assembler: &mut FragmentAssembler,
        src: SocketAddr,
        data: &[u8],
        now: u64,
    ) -> (r: Received)
        requires
            old(assembler).wf(),
        ensures
            final(assembler).wf(),
            (final(assembler)@, r@) == self@.reception(*ident, old(assembler)@, src, data@, now),
    {
        if data.len() == 0 {
            return Received::Nothing;
        }
        if let Some(header) = network_header(data, &ident.network_key) {
            match self.route_header(ident, header) {
                Routing::Local => {},
                Routing::Relay(addr) => return Received::Relay(addr),
                Routing::Drop => return Received::Nothing,
            }
        }
        match assembler.feed(src, data, &ident.network_key, now) {
            FeedResult::Complete(message) => Received::Packet(message),
            FeedResult::Buffered => Received::Nothing,
            FeedResult::NotFragment => Received::Packet(crate::bytes::to_vec(data)),
        }
    }

    /// What is done with a packet.
    pub fn classify(&self, ident: &Identity, packet: &[u8]) -> (r: Step)
        ensures
            r == self@.step(*ident, packet@),
    {
        let header = match network_header(packet, &ident.network_key) {
            Some(header) => header,
            None => return Step::Nothing,
        };
        if header.kind == KIND_HANDSHAKE_1 {
            return Step::Handshake1;
        }
        if header.kind == KIND_HANDSHAKE_2 {
            return Step::Handshake2(header.session_id);
        }
        match self.route_header(ident, header) {
            Routing::Local => Step::Session,
            Routing::Relay(addr) => Step::Relay(addr),
            Routing::Drop => Step::Nothing,
        }
    }

    /// Opens a packet of a session with the key of the peer that sends on it.
    pub fn open_packet(&self, ident: &Identity, packet: &[u8]) -> (r: Option<Opened>)
        ensures
            r is Some == self@.opened(*ident, packet@) is Some,
            r matches Some(opened) ==> self@.opened(*ident, packet@) == Some((opened.peer_id, opened.body@)),
    {
        let header = network_header(packet, &ident.network_key)?;
        let peer_id: u32 = *self.rx_sessions.get(&header.session_id)?;
        let peer = self.peers.get(&peer_id)?;
        let (decoded, body) = decrypt_packet(packet, &ident.network_key, &peer.rx_key)?;
        if decoded != header {
            return None;
        }
        Some(Opened { peer_id, body })
    }
}

} // verus!
