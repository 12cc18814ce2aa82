//! What a node sends of itself: IP packets, questions for lighthouses, keepalives, and the
//! end of its sessions.
use crate::addr::{is_link_local, parsed_network, IpAddr, IpNetwork, SocketAddr};
use crate::crypto::aead::PLAINTEXT_LIMIT;
use crate::mesh::{
    keys_of, message_to, next_seq, seconds_since, sends, Identity, KeepalivePending, Mesh, MeshState, Outgoing,
};
use crate::net::is_mesh;
use crate::packet::{
    encrypt_data_packet, encrypt_disconnect_packet, encrypt_keepalive_packet, encrypt_lighthouse_query_packet,
    serialize_packet, Body,
};
use crate::route::{
    all_valid, dest_ip, discovery_route_from_interface_addr, is_overlay_broadcast, overlay_broadcast, parse_dest_ip,
    route_of,
};
use vstd::prelude::*;

verus! {

broadcast use vstd::std_specs::hash::group_hash_axioms;

/// A lighthouse is not asked again for the same address before this many seconds.
pub const DISCOVERY_RETRY_SECS: u64 = 10;

/// When each address was last asked for.
pub struct Lookups {
    entries: Vec<(IpAddr, u64)>,
}

spec fn lookup_in(entries: Seq<(IpAddr, u64)>, ip: IpAddr) -> Option<u64>
    decreases entries.len(),
{
    if entries.len() == 0 {
        None
    } else if entries.last().0 == ip {
        Some(entries.last().1)
    } else {
        lookup_in(entries.drop_last(), ip)
    }
}

impl Lookups {
    /// When an address was last asked for, if it was.
    pub closed spec fn last(&self, ip: IpAddr) -> Option<u64> {
        lookup_in(self.entries@, ip)
    }

    /// Whether an address was asked for a moment ago.
    pub open spec fn asked_recently(&self, ip: IpAddr, now: u64) -> bool {
        self.last(ip) matches Some(then) && seconds_since(then, now) < DISCOVERY_RETRY_SECS
    }

    /// No address was asked for.
    pub fn new() -> (r: Lookups)
        ensures
            forall|ip: IpAddr| r.last(ip) is None,
    {
        Lookups { entries: Vec::new() }
    }

    /// When an address was last asked for, if it was.
    pub fn get(&self, ip: IpAddr) -> (r: Option<u64>)
        ensures
            r == self.last(ip),
    {
        let mut n: usize = self.entries.len();
        assert(self.entries@.take(n as int) =~= self.entries@);
        while n > 0
            invariant
                n <= self.entries@.len(),
                self.last(ip) == lookup_in(self.entries@.take(n as int), ip),
            decreases n,
        {
            assert(self.entries@.take(n as int).drop_last() =~= self.entries@.take(n - 1));
            if self.entries[n - 1].0 == ip {
                return Some(self.entries[n - 1].1);
            }
            n = n - 1;
        }
        None
    }

    /// Notes that an address was asked for.
    pub fn insert(&mut self, ip: IpAddr, now: u64)
        ensures
            forall|other: IpAddr| #[trigger]
                final(self).last(other) == (if other == ip {
                    Some(now)
                } else {
                    old(self).last(other)
                }),
    {
        let ghost before = self.entries@;
        let mut i: usize = 0;
        while i < self.entries.len()
            invariant
                before == old(self).entries@,
                self.entries@ == before,
                i <= before.len(),
                forall|j: int| 0 <= j < i ==> (#[trigger] before[j]).0 != ip,
            decreases before.len() - i,
        {
            if self.entries[i].0 == ip {
                self.entries.remove(i);
                self.entries.push((ip, now));
                proof {
                    lemma_replace(before, i as int, ip, now);
                    assert(self.entries@ =~= before.remove(i as int).push((ip, now)));
                }
                return;
            }
            i = i + 1;
        }
        self.entries.push((ip, now));
        assert(self.entries@.drop_last() =~= before);
    }
}

/// An entry that is replaced by one at the end changes what is found for its address alone,
/// if the address had no other.
proof fn lemma_replace(entries: Seq<(IpAddr, u64)>, i: int, ip: IpAddr, now: u64)
    requires
        0 <= i < entries.len(),
        entries[i].0 == ip,
    ensures
        forall|other: IpAddr| #[trigger]
            lookup_in(entries.remove(i).push((ip, now)), other) == (if other == ip {
                Some(now)
            } else {
                lookup_in(entries, other)
            }),
{
    let after = entries.remove(i).push((ip, now));
    assert(after.drop_last() =~= entries.remove(i));
    assert forall|other: IpAddr| #[trigger]
        lookup_in(after, other) == (if other == ip {
            Some(now)
        } else {
            lookup_in(entries, other)
        }) by {
        if other != ip {
            lemma_remove_other(entries, i, other);
        }
    }
}

proof fn lemma_remove_other(entries: Seq<(IpAddr, u64)>, i: int, other: IpAddr)
    requires
        0 <= i < entries.len(),
        entries[i].0 != other,
    ensures
        lookup_in(entries.remove(i), other) == lookup_in(entries, other),
    decreases entries.len(),
{
    if i == entries.len() - 1 {
        assert(entries.remove(i) =~= entries.drop_last());
    } else {
        assert(entries.remove(i).drop_last() =~= entries.drop_last().remove(i));
        lemma_remove_other(entries.drop_last(), i, other);
    }
}

/// What is done with an IP packet from the interface.
pub enum TunAction {
    /// It is no IP packet.
    Unparsable,
    /// It is for several nodes, or for the link alone.
    Skipped(IpAddr),
    /// No route leads to its destination: a lighthouse is to be asked.
    NoRoute(IpAddr),
    /// It goes to a peer.
    Send(u32, Outgoing),
}

/// A keepalive for a lighthouse.
pub struct KeepaliveSent {
    pub peer_id: u32,
    /// The token of the one before it, if that was not answered in time.
    pub timed_out: Option<u64>,
    pub out: Outgoing,
}

/// What the address of the interface means for the node.
#[derive(Debug, Clone, Copy, PartialEq, Eq, Structural)]
pub enum OverlayPlan {
    /// Other nodes are in this network.
    Network(IpNetwork),
    /// There is no such network, and none is needed.
    Alone,
    /// There is no such network, but the node has lighthouses to ask for other nodes.
    BreaksDiscovery,
    InvalidAddress,
}

/// What the address `ip` of the interface means for a node with or without lighthouses.
pub open spec fn overlay_of(ip: Seq<char>, has_lighthouses: bool) -> OverlayPlan {
    match parsed_network(ip) {
        None => OverlayPlan::InvalidAddress,
        Some(net) => if is_mesh(net) {
            OverlayPlan::Network(IpNetwork { ip: net.network_address(), prefix: net.prefix })
        } else if has_lighthouses {
            OverlayPlan::BreaksDiscovery
        } else {
            OverlayPlan::Alone
        },
    }
}

/// What the address `ip` of the interface means for a node with or without lighthouses.
pub fn overlay_plan(ip: &str, has_lighthouses: bool) -> (r: OverlayPlan)
    ensures
        r == overlay_of(ip@, has_lighthouses),
        r matches OverlayPlan::Network(net) ==> net.valid(),
{
    match discovery_route_from_interface_addr(ip) {
        Ok(Some(net)) => OverlayPlan::Network(net),
        Ok(None) => if has_lighthouses { OverlayPlan::BreaksDiscovery } else { OverlayPlan::Alone },
        Err(_) => OverlayPlan::InvalidAddress,
    }
}

impl MeshState {
    /// Whether `id` is the number of a peer at `addr`, or `None` and there is no such peer.
    pub open spec fn is_peer_at(self, addr: SocketAddr, id: Option<u32>) -> bool {
        match id {
            Some(id) => self.peers.contains_key(id) && self.peers[id].addr == addr,
            None => forall|id: u32| #[trigger] self.peers.contains_key(id) ==> self.peers[id].addr != addr,
        }
    }

    /// The state after the first `n` of some peers got a packet each.
    pub open spec fn after_packets(self, ids: Seq<Option<u32>>, n: nat) -> MeshState
        decreases n,
    {
        if n == 0 {
            self
        } else {
            let before = self.after_packets(ids, (n - 1) as nat);
            match ids[n - 1] {
                Some(id) => before.with_next_seq(id),
                None => before,
            }
        }
    }

    /// Whether `ids[i]` is the peer at `addrs[i]`, and `out` asks it, as the `i`-th, for the
    /// peer behind an address.
    pub open spec fn asks(
        self,
        ident: Identity,
        addrs: Seq<SocketAddr>,
        ids: Seq<Option<u32>>,
        i: int,
        target_ip: IpAddr,
        out: Option<Outgoing>,
    ) -> bool {
        &&& self.is_peer_at(addrs[i], ids[i])
        &&& match ids[i] {
            None => out is None,
            Some(id) => {
                let peer = self.after_packets(ids, i as nat).peers[id];
                out matches Some(o) && o.wire is Some && sends(
                    o,
                    message_to(id, peer, Body::LighthouseQuery { seq: next_seq(peer.tx_seq), target_ip }),
                    ident.network_key@,
                )
            },
        }
    }

    /// Whether `after` and `r` are what a keepalive for the peer at `addr` leads to.
    pub open spec fn kept_alive(
        self,
        ident: Identity,
        addr: SocketAddr,
        token: u64,
        timeout: u64,
        now: u64,
        after: MeshState,
        r: Option<KeepaliveSent>,
    ) -> bool {
        &&& r is None ==> self.is_peer_at(addr, None) && after == self
        &&& r matches Some(sent) ==> {
            let id = sent.peer_id;
            let peer = self.peers[id];
            let earlier = self.keepalives[id];
            &&& self.is_peer_at(addr, Some(id))
            &&& after == (MeshState {
                keepalives: self.keepalives.insert(id, KeepalivePending { token, sent_at: now }),
                ..self.with_next_seq(id)
            })
            &&& sent.timed_out == (if self.keepalives.contains_key(id) && seconds_since(earlier.sent_at, now)
                >= timeout {
                Some(earlier.token)
            } else {
                None
            })
            &&& sent.out.wire is Some
            &&& sends(
                sent.out,
                message_to(id, peer, Body::Keepalive { seq: next_seq(peer.tx_seq), token }),
                ident.network_key@,
            )
        }
    }

    /// Whether `after` and `r` are what an IP packet from the interface leads to.
    pub open spec fn ip_packet_sent(
        self,
        ident: Identity,
        ip_packet: Seq<u8>,
        overlay: Seq<IpNetwork>,
        after: MeshState,
        r: TunAction,
    ) -> bool {
        match self.tun_route(ip_packet, overlay) {
            TunRoute::Unparsable => after == self && r is Unparsable,
            TunRoute::Skipped(ip) => after == self && r == TunAction::Skipped(ip),
            TunRoute::NoRoute(ip) => after == self && r == TunAction::NoRoute(ip),
            TunRoute::Peer(id) => {
                let peer = self.peers[id];
                &&& self.peers.contains_key(id)
                &&& after == self.with_next_seq(id)
                &&& r matches TunAction::Send(to, out) && to == id && out.wire is Some && sends(
                    out,
                    message_to(id, peer, Body::Data { seq: next_seq(peer.tx_seq), ip_packet }),
                    ident.network_key@,
                )
            },
        }
    }

    /// Whether `after` and `r` are what a question to the lighthouses at `addrs` leads to.
    pub open spec fn discovery_asked(
        self,
        ident: Identity,
        target_ip: IpAddr,
        addrs: Seq<SocketAddr>,
        recently: bool,
        after: MeshState,
        r: Seq<Option<Outgoing>>,
    ) -> bool {
        if recently {
            r.len() == 0 && after == self
        } else {
            &&& r.len() == addrs.len()
            &&& exists|ids: Seq<Option<u32>>|
                {
                    &&& ids.len() == addrs.len()
                    &&& after == #[trigger] self.after_packets(ids, ids.len())
                    &&& forall|i: int|
                        0 <= i < r.len() ==> self.asks(ident, addrs, ids, i, target_ip, #[trigger] r[i])
                }
        }
    }

    /// Whether `r` tells every peer, each once, that the node leaves.
    pub open spec fn says_goodbye(self, ident: Identity, r: Seq<(u32, Outgoing)>) -> bool {
        &&& forall|i: int|
            0 <= i < r.len() ==> {
                let id = (#[trigger] r[i]).0;
                let peer = self.peers[id];
                &&& self.peers.contains_key(id)
                &&& r[i].1.wire is Some
                &&& sends(
                    r[i].1,
                    message_to(id, peer, Body::Disconnect { seq: next_seq(peer.tx_seq) }),
                    ident.network_key@,
                )
            }
        &&& forall|id: u32| #[trigger]
            self.peers.contains_key(id) ==> exists|i: int| 0 <= i < r.len() && (#[trigger] r[i]).0 == id
        &&& forall|i: int, j: int| #![trigger r[i], r[j]] 0 <= i < j < r.len() ==> r[i].0 != r[j].0
    }

    /// What is done with an IP packet from the interface, but for sending it.
    pub open spec fn tun_route(self, ip_packet: Seq<u8>, overlay: Seq<IpNetwork>) -> TunRoute {
        match dest_ip(ip_packet) {
            None => TunRoute::Unparsable,
            Some(ip) => if ip.multicast() || ip.link_local() || overlay_broadcast(ip, overlay) {
                TunRoute::Skipped(ip)
            } else {
                match route_of(self.routes, ip) {
                    None => TunRoute::NoRoute(ip),
                    Some(id) => TunRoute::Peer(id),
                }
            },
        }
    }
}

/// Where an IP packet from the interface goes.
pub enum TunRoute {
    Unparsable,
    Skipped(IpAddr),
    NoRoute(IpAddr),
    Peer(u32),
}

impl Mesh {
    /// A peer at `addr`, if there is one.
    fn peer_at(&self, addr: SocketAddr) -> (r: Option<u32>)
        ensures
            self@.is_peer_at(addr, r),
    {
        let ids = keys_of(&self.peers);
        let mut i: usize = 0;
        while i < ids.len()
            invariant
                i <= ids@.len(),
                forall|id: u32| #[trigger] ids@.contains(id) == self@.peers.contains_key(id),
                forall|j: int| 0 <= j < i ==> self@.peers[#[trigger] ids@[j]].addr != addr,
            decreases ids@.len() - i,
        {
            let id: u32 = ids[i];
            assert(ids@.contains(id));
            if let Some(peer) = self.peers.get(&id) {
                if peer.addr == addr {
                    return Some(id);
                }
            }
            i = i + 1;
        }
        assert forall|id: u32| #[trigger] self@.peers.contains_key(id) implies self@.peers[id].addr != addr by {
            assert(ids@.contains(id));
            let j = choose|j: int| 0 <= j < ids@.len() && ids@[j] == id;
            assert(self@.peers[ids@[j]].addr != addr);
        }
        None
    }

    /// Sends an IP packet from the interface to the peer that its destination lies behind.
    /// Multicast, link-local and broadcast destinations are skipped.
    #[verifier::rlimit(60)]
    #[verifier::spinoff_prover]
    pub fn send_ip_packet(&mut self, ident: &Identity, ip_packet: &[u8], overlay: &[IpNetwork]) -> (r: TunAction)
        requires
            old(self).wf(),
            all_valid(overlay@),
            ip_packet@.len() + 44 < PLAINTEXT_LIMIT,
        ensures
            final(self).wf(),
            old(self)@.ip_packet_sent(*ident, ip_packet@, overlay@, final(self)@, r),
    {
        let dst = match parse_dest_ip(ip_packet) {
            Some(dst) => dst,
            None => return TunAction::Unparsable,
        };
        if dst.is_multicast() || is_link_local(dst) || is_overlay_broadcast(dst, overlay) {
            return TunAction::Skipped(dst);
        }
        let id: u32 = match self.routes.lookup(dst) {
            Some(id) => id,
            None => return TunAction::NoRoute(dst),
        };
        proof {
            let i = choose|i: int| crate::route::is_best(self@.routes, dst, i);
            assert(self@.peers.contains_key(self@.routes[i].1));
        }
        let seq: u64 = self.next_seq_for(id);
        match self.peers.get(&id) {
            Some(peer) => {
                let pkt = encrypt_data_packet(
                    seq,
                    id,
                    peer.tx_session_id,
                    ip_packet,
                    &ident.network_key,
                    &peer.tx_key,
                );
                TunAction::Send(id, Outgoing { addr: peer.addr, wire: Some(serialize_packet(&pkt)) })
            },
            None => TunAction::Unparsable,
        }
    }

    /// Asks the connected lighthouses, of those at the given addresses, for the peer behind
    /// `dst_ip`, unless they were asked a moment ago. There is one entry for each address,
    /// and `None` where no peer is at it.
    #[verifier::rlimit(60)]
    #[verifier::spinoff_prover]
    pub fn request_lighthouse_discovery(
        &mut self,
        ident: &Identity,
        dst_ip: IpAddr,
        lighthouses: &[SocketAddr],
        lookups: &mut Lookups,
        now: u64,
    ) -> (r: Vec<Option<Outgoing>>)
        requires
            old(self).wf(),
        ensures
            final(self).wf(),
            old(self)@.discovery_asked(
                *ident,
                dst_ip,
                lighthouses@,
                old(lookups).asked_recently(dst_ip, now),
                final(self)@,
                r@,
            ),
            (forall|i: int| 0 <= i < r@.len() ==> (#[trigger] r@[i]) is None) ==> *final(lookups) == *old(lookups),
            (exists|i: int| 0 <= i < r@.len() && (#[trigger] r@[i]) is Some) ==> forall|ip: IpAddr| #[trigger]
                final(lookups).last(ip) == (if ip == dst_ip {
                    Some(now)
                } else {
                    old(lookups).last(ip)
                }),
    {
        let mut out: Vec<Option<Outgoing>> = Vec::new();
        if let Some(then) = lookups.get(dst_ip) {
            if now.saturating_sub(then) < DISCOVERY_RETRY_SECS {
                return out;
            }
        }
        let ghost before = self@;
        let ghost mut ids: Seq<Option<u32>> = Seq::empty();
        let mut any = false;
        let mut i: usize = 0;
        while i < lighthouses.len()
            invariant
                self.wf(),
                i <= lighthouses@.len(),
                out@.len() == i,
                ids.len() == i,
                self@ == before.after_packets(ids, i as nat),
                forall|k: int|
                    0 <= k < i ==> before.asks(*ident, lighthouses@, ids, k, dst_ip, #[trigger] out@[k]),
                forall|id: u32| #[trigger] self@.peers.contains_key(id) == before.peers.contains_key(id),
                forall|id: u32| #[trigger] self@.peers.contains_key(id) ==> self@.peers[id].addr == before.peers[id].addr,
                any == exists|k: int| 0 <= k < i && (#[trigger] out@[k]) is Some,
            decreases lighthouses@.len() - i,
        {
            let found = self.peer_at(lighthouses[i]);
            let ghost held = self@;
            let ghost ids_before = ids;
            let ghost out_before = out@;
            let o = match found {
                Some(id) => {
                    any = true;
                    Some(self.ask(ident, id, dst_ip))
                },
                None => None,
            };
            out.push(o);
            proof {
                ids = ids.push(found);
                lemma_same_prefix(before, ids_before, ids, i as nat);
                assert(before.is_peer_at(lighthouses@[i as int], found)) by {
                    if found is None {
                        assert forall|id: u32| #[trigger] before.peers.contains_key(id) implies before.peers[id].addr
                            != lighthouses@[i as int] by {
                            assert(held.peers.contains_key(id));
                        }
                    } else {
                        assert(held.peers.contains_key(found->0));
                    }
                }
                assert forall|k: int| 0 <= k < i + 1 implies before.asks(
                    *ident,
                    lighthouses@,
                    ids,
                    k,
                    dst_ip,
                    #[trigger] out@[k],
                ) by {
                    if k < i {
                        lemma_same_prefix(before, ids_before, ids, k as nat);
                        assert(before.asks(*ident, lighthouses@, ids_before, k, dst_ip, out_before[k]));
                    }
                }
                assert(any == exists|k: int| 0 <= k < i + 1 && (#[trigger] out@[k]) is Some) by {
                    if exists|k: int| 0 <= k < i && (#[trigger] out_before[k]) is Some {
                        let k = choose|k: int| 0 <= k < i && (#[trigger] out_before[k]) is Some;
                        assert(out@[k] is Some);
                    }
                    if exists|k: int| 0 <= k < i + 1 && (#[trigger] out@[k]) is Some {
                        let k = choose|k: int| 0 <= k < i + 1 && (#[trigger] out@[k]) is Some;
                        if k < i {
                            assert(out_before[k] is Some);
                        }
                    }
                    if found is Some {
                        assert(out@[i as int] is Some);
                    }
                }
            }
            i = i + 1;
        }
        if any {
            lookups.insert(dst_ip, now);
        }
        assert(self@ == before.after_packets(ids, ids.len()));
        out
    }

    /// Asks a peer for the peer behind an address.
    fn ask(&mut self, ident: &Identity, id: u32, target_ip: IpAddr) -> (out: Outgoing)
        requires
            old(self).wf(),
            old(self)@.peers.contains_key(id),
        ensures
            final(self).wf(),
            final(self)@ == old(self)@.with_next_seq(id),
            out.wire is Some,
            sends(
                out,
                message_to(
                    id,
                    old(self)@.peers[id],
                    Body::LighthouseQuery { seq: next_seq(old(self)@.peers[id].tx_seq), target_ip },
                ),
                ident.network_key@,
            ),
    {
        let seq: u64 = self.next_seq_for(id);
        let peer = self.peers.get(&id).unwrap();
        let pkt = encrypt_lighthouse_query_packet(
            seq,
            id,
            peer.tx_session_id,
            target_ip,
            &ident.network_key,
            &peer.tx_key,
        );
        Outgoing { addr: peer.addr, wire: Some(serialize_packet(&pkt)) }
    }

    /// Sends a keepalive with the given token to the lighthouse at `addr`, if it is a peer,
    /// and waits for its answer from now on.
    #[verifier::rlimit(60)]
    #[verifier::spinoff_prover]
    pub fn lighthouse_keepalive(
        &mut self,
        ident: &Identity,
        addr: SocketAddr,
        token: u64,
        timeout: u64,
        now: u64,
    ) -> (r: Option<KeepaliveSent>)
        requires
            old(self).wf(),
        ensures
            final(self).wf(),
            old(self)@.kept_alive(*ident, addr, token, timeout, now, final(self)@, r),
    {
        let id: u32 = match self.peer_at(addr) {
            Some(id) => id,
            None => return None,
        };
        let mut timed_out: Option<u64> = None;
        if let Some(earlier) = self.keepalives.get(&id) {
            if now.saturating_sub(earlier.sent_at) >= timeout {
                timed_out = Some(earlier.token);
            }
        }
        self.keepalives.insert(id, KeepalivePending { token, sent_at: now });
        let out = self.keep_alive(ident, id, token);
        Some(KeepaliveSent { peer_id: id, timed_out, out })
    }

    /// Asks a peer for a sign of life.
    #[verifier::rlimit(60)]
    #[verifier::spinoff_prover]
    fn keep_alive(&mut self, ident: &Identity, id: u32, token: u64) -> (out: Outgoing)
        requires
            old(self).wf(),
            old(self)@.peers.contains_key(id),
        ensures
            final(self).wf(),
            final(self)@ == old(self)@.with_next_seq(id),
            out.wire is Some,
            sends(
                out,
                message_to(
                    id,
                    old(self)@.peers[id],
                    Body::Keepalive { seq: next_seq(old(self)@.peers[id].tx_seq), token },
                ),
                ident.network_key@,
            ),
    {
        let seq: u64 = self.next_seq_for(id);
        let peer = self.peers.get(&id).unwrap();
        let pkt = encrypt_keepalive_packet(seq, id, peer.tx_session_id, token, &ident.network_key, &peer.tx_key);
        Outgoing { addr: peer.addr, wire: Some(serialize_packet(&pkt)) }
    }

    /// The packets that tell every peer that the node leaves.
    #[verifier::rlimit(60)]
    #[verifier::spinoff_prover]
    pub fn disconnect_packets(&self, ident: &Identity) -> (r: Vec<(u32, Outgoing)>)
        ensures
            self@.says_goodbye(*ident, r@),
    {
        let ids = keys_of(&self.peers);
        let mut out: Vec<(u32, Outgoing)> = Vec::new();
        let mut i: usize = 0;
        while i < ids.len()
            invariant
                i <= ids@.len(),
                ids@.no_duplicates(),
                forall|id: u32| #[trigger] ids@.contains(id) == self@.peers.contains_key(id),
                out@.len() == i,
                forall|k: int|
                    0 <= k < i ==> {
                        let id = (#[trigger] out@[k]).0;
                        let peer = self@.peers[id];
                        &&& id == ids@[k]
                        &&& out@[k].1.wire is Some
                        &&& sends(
                            out@[k].1,
                            message_to(id, peer, Body::Disconnect { seq: next_seq(peer.tx_seq) }),
                            ident.network_key@,
                        )
                    },
            decreases ids@.len() - i,
        {
            let id: u32 = ids[i];
            assert(ids@.contains(id));
            let peer = self.peers.get(&id).unwrap();
            let seq: u64 = if peer.tx_seq == u64::MAX { 0 } else { peer.tx_seq + 1 };
            let pkt = encrypt_disconnect_packet(seq, id, peer.tx_session_id, &ident.network_key, &peer.tx_key);
            out.push((id, Outgoing { addr: peer.addr, wire: Some(serialize_packet(&pkt)) }));
            i = i + 1;
        }
        assert forall|k: int| 0 <= k < out@.len() implies self@.peers.contains_key((#[trigger] out@[k]).0) by {
            assert(ids@.contains(ids@[k]));
        }
        assert forall|id: u32| #[trigger] self@.peers.contains_key(id) implies exists|k: int|
            0 <= k < out@.len() && (#[trigger] out@[k]).0 == id by {
            assert(ids@.contains(id));
            let k = choose|k: int| 0 <= k < ids@.len() && ids@[k] == id;
            assert(out@[k].0 == id);
        }
        out
    }
}

/// The state after some packets depends on the peers that got them alone.
proof fn lemma_same_prefix(state: MeshState, a: Seq<Option<u32>>, b: Seq<Option<u32>>, n: nat)
    requires
        n <= a.len() <= b.len(),
        forall|i: int| 0 <= i < n ==> a[i] == b[i],
    ensures
        state.after_packets(a, n) == state.after_packets(b, n),
    decreases n,
{
    if n > 0 {
        lemma_same_prefix(state, a, b, (n - 1) as nat);
    }
}

} // verus!
